//! Partition-refinement minimization: states are grouped by accept tag,
//! then blocks are split until every two states of a block agree on
//! their transition rows mapped through the partition. The quotient
//! automaton keeps the scanner's whole token stream unchanged.

use vstd::prelude::*;

use crate::direct_afd::{row_wf, Dfa, Sym};

verus! {

/// A transition row with every target renamed through the partition.
pub open spec fn map_row(row: Seq<(Sym, usize)>, b: Seq<usize>) -> Seq<(Sym, usize)> {
    Seq::new(
        row.len(),
        |k: int|
            (
                row[k].0,
                if row[k].1 < b.len() {
                    b[row[k].1 as int]
                } else {
                    0usize
                },
            ),
    )
}

/// Behavioural agreement of two states under a partition: same accept
/// tag and same renamed transition row.
pub open spec fn same_behavior(d: Dfa, b: Seq<usize>, s1: int, s2: int) -> bool {
    d.accept@[s1] == d.accept@[s2] && map_row(d.transitions@[s1]@, b) == map_row(
        d.transitions@[s2]@,
        b,
    )
}

/// The refinement key: same current block and same behaviour.
pub open spec fn key_eq(d: Dfa, b: Seq<usize>, s1: int, s2: int) -> bool {
    b[s1] == b[s2] && same_behavior(d, b, s1, s2)
}

/// A representative-style partition vector: every state points at the
/// smallest state of its block, which points at itself.
pub open spec fn rep_style(b: Seq<usize>) -> bool {
    forall|s: int|
        0 <= s < b.len() ==> #[trigger] b[s] <= s && b[b[s] as int] == b[s] && (forall|j: int|
            0 <= j < b[s] ==> #[trigger] b[j] != b[s])
}

/// States of different blocks behave differently under the partition.
pub open spec fn sep(d: Dfa, b: Seq<usize>) -> bool {
    forall|s1: int, s2: int|
        #![trigger b[s1], b[s2]]
        0 <= s1 < b.len() && 0 <= s2 < b.len() && b[s1] != b[s2] ==> !same_behavior(d, b, s1, s2)
}

/// The partition is stable: every state behaves like its representative.
pub open spec fn stable_partition(d: Dfa, b: Seq<usize>) -> bool {
    forall|s: int| 0 <= s < b.len() ==> #[trigger] key_eq(d, b, b[s] as int, s)
}

/// A stable partition: any two states it joins agree in tag and in
/// renamed row.
pub open spec fn stable_for(d: Dfa, q: Seq<usize>) -> bool {
    q.len() == d.n() && forall|s1: int, s2: int|
        #![trigger q[s1], q[s2]]
        0 <= s1 < d.n() && 0 <= s2 < d.n() && q[s1] == q[s2] ==> same_behavior(d, q, s1, s2)
}

/// `b` joins whatever `q` joins.
pub open spec fn coarser(b: Seq<usize>, q: Seq<usize>, n: int) -> bool {
    forall|s1: int, s2: int|
        #![trigger q[s1], q[s2]]
        0 <= s1 < n && 0 <= s2 < n && q[s1] == q[s2] ==> b[s1] == b[s2]
}

/// Sum of the entries of a partition vector.
pub open spec fn blk_sum(b: Seq<usize>) -> int
    decreases b.len(),
{
    if b.len() == 0 {
        0
    } else {
        blk_sum(b.drop_last()) + b.last()
    }
}

proof fn lemma_blk_sum_bound(b: Seq<usize>, m: int)
    requires
        forall|i: int| 0 <= i < b.len() ==> #[trigger] b[i] <= m,
        0 <= m,
    ensures
        0 <= blk_sum(b) <= b.len() * m,
    decreases b.len(),
{
    if b.len() > 0 {
        assert(forall|i: int| 0 <= i < b.drop_last().len() ==> #[trigger] b.drop_last()[i] <= m);
        lemma_blk_sum_bound(b.drop_last(), m);
        assert((b.len() - 1) * m + m == b.len() * m) by (nonlinear_arith);
    }
}

proof fn lemma_blk_sum_pointwise_lt(b1: Seq<usize>, b2: Seq<usize>)
    requires
        b1.len() == b2.len(),
        forall|i: int| 0 <= i < b1.len() ==> #[trigger] b1[i] <= b2[i],
        exists|i: int| 0 <= i < b1.len() && #[trigger] b1[i] < b2[i],
    ensures
        blk_sum(b1) < blk_sum(b2),
    decreases b1.len(),
{
    let i0 = choose|i: int| 0 <= i < b1.len() && #[trigger] b1[i] < b2[i];
    assert(forall|i: int|
        0 <= i < b1.drop_last().len() ==> #[trigger] b1.drop_last()[i] <= b2.drop_last()[i]);
    if i0 == b1.len() - 1 {
        lemma_blk_sum_pointwise_le(b1.drop_last(), b2.drop_last());
    } else {
        assert(b1.drop_last()[i0] < b2.drop_last()[i0]);
        lemma_blk_sum_pointwise_lt(b1.drop_last(), b2.drop_last());
    }
}

proof fn lemma_blk_sum_pointwise_le(b1: Seq<usize>, b2: Seq<usize>)
    requires
        b1.len() == b2.len(),
        forall|i: int| 0 <= i < b1.len() ==> #[trigger] b1[i] <= b2[i],
    ensures
        blk_sum(b1) <= blk_sum(b2),
    decreases b1.len(),
{
    if b1.len() > 0 {
        assert(forall|i: int|
            0 <= i < b1.drop_last().len() ==> #[trigger] b1.drop_last()[i] <= b2.drop_last()[i]);
        lemma_blk_sum_pointwise_le(b1.drop_last(), b2.drop_last());
    }
}

/// Renaming through a block-injective second partition preserves
/// behavioural agreement in both directions.
proof fn lemma_maprow_compose(d: Dfa, b: Seq<usize>, b2: Seq<usize>, s1: int, s2: int)
    requires
        d.wf(),
        b.len() == d.n(),
        b2.len() == d.n(),
        0 <= s1 < d.n(),
        0 <= s2 < d.n(),
        forall|t1: int, t2: int|
            #![trigger b[t1], b[t2]]
            0 <= t1 < d.n() && 0 <= t2 < d.n() && b[t1] != b[t2] ==> b2[t1] != b2[t2],
        map_row(d.transitions@[s1]@, b2) == map_row(d.transitions@[s2]@, b2),
    ensures
        map_row(d.transitions@[s1]@, b) == map_row(d.transitions@[s2]@, b),
{
    let r1 = d.transitions@[s1]@;
    let r2 = d.transitions@[s2]@;
    assert(row_wf(r1, d.n()));
    assert(row_wf(r2, d.n()));
    assert(map_row(r1, b2).len() == map_row(r2, b2).len());
    assert forall|k: int| 0 <= k < r1.len() implies map_row(r1, b)[k] == map_row(r2, b)[k] by {
        assert(map_row(r1, b2)[k] == map_row(r2, b2)[k]);
        assert(r1[k].1 < d.n() && r2[k].1 < d.n()) by {
            assert(row_wf(r1, d.n()) && row_wf(r2, d.n()));
        }
        assert(b2[r1[k].1 as int] == b2[r2[k].1 as int]);
        if b[r1[k].1 as int] != b[r2[k].1 as int] {
            assert(b2[r1[k].1 as int] != b2[r2[k].1 as int]);
        }
    }
    assert(map_row(r1, b) =~= map_row(r2, b));
}

/// Decides whether two states carry the same accept tag.
fn accept_eq(d: &Dfa, s1: usize, s2: usize) -> (r: bool)
    requires
        s1 < d.accept@.len(),
        s2 < d.accept@.len(),
    ensures
        r <==> d.accept@[s1 as int] == d.accept@[s2 as int],
{
    match (d.accept[s1], d.accept[s2]) {
        (Some(g1), Some(g2)) => g1 == g2,
        (None, None) => true,
        _ => false,
    }
}

/// Decides whether two states have the same renamed transition row.
fn rows_eq(d: &Dfa, blk: &Vec<usize>, s1: usize, s2: usize) -> (r: bool)
    requires
        d.wf(),
        blk@.len() == d.n(),
        s1 < d.n(),
        s2 < d.n(),
    ensures
        r <==> map_row(d.transitions@[s1 as int]@, blk@) == map_row(
            d.transitions@[s2 as int]@,
            blk@,
        ),
{
    let r1 = &d.transitions[s1];
    let r2 = &d.transitions[s2];
    proof {
        assert(row_wf(r1@, d.n()));
        assert(row_wf(r2@, d.n()));
    }
    if r1.len() != r2.len() {
        proof {
            assert(map_row(r1@, blk@).len() != map_row(r2@, blk@).len());
        }
        return false;
    }
    let m = r1.len();
    let mut k: usize = 0;
    while k < m
        invariant
            d.wf(),
            blk@.len() == d.n(),
            s1 < d.n(),
            s2 < d.n(),
            r1@ == d.transitions@[s1 as int]@,
            r2@ == d.transitions@[s2 as int]@,
            m == r1@.len(),
            m == r2@.len(),
            k <= m,
            forall|j: int| 0 <= j < k ==> map_row(r1@, blk@)[j] == map_row(r2@, blk@)[j],
        decreases m - k,
    {
        let e1 = r1[k];
        let e2 = r2[k];
        proof {
            assert(row_wf(r1@, d.n()));
            assert(row_wf(r2@, d.n()));
            assert(e1.1 < d.n() && e2.1 < d.n());
        }
        if !(e1.0 == e2.0 && blk[e1.1] == blk[e2.1]) {
            proof {
                assert(map_row(r1@, blk@)[k as int] != map_row(r2@, blk@)[k as int]);
            }
            return false;
        }
        proof {
            assert(map_row(r1@, blk@)[k as int] == map_row(r2@, blk@)[k as int]);
        }
        k = k + 1;
    }
    proof {
        assert(map_row(r1@, blk@) =~= map_row(r2@, blk@));
    }
    true
}

/// Decides behavioural agreement of two states under the partition.
fn behavior_eq(d: &Dfa, blk: &Vec<usize>, s1: usize, s2: usize) -> (r: bool)
    requires
        d.wf(),
        blk@.len() == d.n(),
        s1 < d.n(),
        s2 < d.n(),
    ensures
        r <==> same_behavior(*d, blk@, s1 as int, s2 as int),
{
    accept_eq(d, s1, s2) && rows_eq(d, blk, s1, s2)
}

} // verus!

verus! {

/// Assigns every state the smallest state it agrees with, in current
/// block and in behaviour.
fn regroup(d: &Dfa, blk: &Vec<usize>) -> (nblk: Vec<usize>)
    requires
        d.wf(),
        blk@.len() == d.n(),
    ensures
        nblk@.len() == d.n(),
        forall|s: int|
            0 <= s < d.n() ==> (#[trigger] nblk@[s]) <= s && key_eq(*d, blk@, nblk@[s] as int, s)
                && (forall|j: int| 0 <= j < nblk@[s] ==> !#[trigger] key_eq(*d, blk@, j, s)),
{
    let n = d.transitions.len();
    let mut nblk: Vec<usize> = Vec::new();
    let mut s: usize = 0;
    while s < n
        invariant
            d.wf(),
            blk@.len() == d.n(),
            n == d.n(),
            s <= n,
            nblk@.len() == s,
            forall|s2: int|
                0 <= s2 < s ==> (#[trigger] nblk@[s2]) <= s2 && key_eq(
                    *d,
                    blk@,
                    nblk@[s2] as int,
                    s2,
                ) && (forall|j: int| 0 <= j < nblk@[s2] ==> !#[trigger] key_eq(*d, blk@, j, s2)),
        decreases n - s,
    {
        let mut j: usize = 0;
        let mut found: usize = s;
        let mut done = false;
        while j < s && !done
            invariant
                d.wf(),
                blk@.len() == d.n(),
                n == d.n(),
                s < n,
                j <= s,
                !done ==> found == s && forall|j2: int|
                    0 <= j2 < j ==> !#[trigger] key_eq(*d, blk@, j2, s as int),
                done ==> found < s && key_eq(*d, blk@, found as int, s as int) && forall|j2: int|
                    0 <= j2 < found ==> !#[trigger] key_eq(*d, blk@, j2, s as int),
            decreases s - j + (if done {
                0int
            } else {
                1int
            }),
        {
            if blk[j] == blk[s] && behavior_eq(d, blk, j, s) {
                found = j;
                done = true;
            } else {
                proof {
                    assert(!key_eq(*d, blk@, j as int, s as int));
                }
                j = j + 1;
            }
        }
        proof {
            if !done {
                assert(key_eq(*d, blk@, s as int, s as int));
            }
        }
        nblk.push(found);
        s = s + 1;
    }
    nblk
}

/// Some state of the original automaton maps onto block `b`.
pub open spec fn block_inhabited(d: Dfa, blk: Seq<usize>, b: int) -> bool {
    exists|s: int| 0 <= s < d.n() && (#[trigger] blk[s]) as int == b
}

/// What minimization returns: a valid quotient automaton and the
/// renaming of old states onto it. Every state's accept tag and renamed
/// row are preserved, every quotient state is the image of some state,
/// and no two distinct quotient states have equal transition tables and
/// equal tags.
pub open spec fn minimized_ok(d: Dfa, m: Dfa, blk: Seq<usize>) -> bool {
    &&& m.wf()
    &&& blk.len() == d.n()
    &&& m.n() <= d.n()
    &&& (forall|s: int| 0 <= s < d.n() ==> (#[trigger] blk[s]) < m.n())
    &&& d.n() > 0 ==> m.start == blk[d.start as int]
    &&& (forall|s: int|
        0 <= s < d.n() ==> m.accept@[(#[trigger] blk[s]) as int] == d.accept@[s])
    &&& (forall|s: int|
        0 <= s < d.n() ==> m.transitions@[(#[trigger] blk[s]) as int]@ == map_row(
            d.transitions@[s]@,
            blk,
        ))
    &&& (forall|b: int|
        0 <= b < m.n() ==> #[trigger] block_inhabited(d, blk, b))
    &&& (forall|b1: int, b2: int|
        #![trigger m.transitions@[b1]@, m.transitions@[b2]@]
        0 <= b1 < m.n() && 0 <= b2 < m.n() && b1 != b2 ==> !(m.accept@[b1] == m.accept@[b2]
            && m.transitions@[b1]@ == m.transitions@[b2]@))
}

/// Minimizes the automaton by partition refinement and returns the
/// quotient together with the old-state-to-new-state renaming.
#[verifier::rlimit(100)]
pub fn minimize_dfa(d: &Dfa) -> (r: (Dfa, Vec<usize>))
    requires
        d.wf(),
    ensures
        minimized_ok(*d, r.0, r.1@),
        forall|q: Seq<usize>| #[trigger] stable_for(*d, q) ==> coarser(r.1@, q, d.n()),
{
    let n = d.transitions.len();
    proof {
        assert(n == d.n());
        assert(n >= 1);
    }
    // Initial partition: one block holding every state; the first
    // refinement round splits it by accept tag and row shape.
    let mut blk: Vec<usize> = Vec::new();
    let mut s: usize = 0;
    while s < n
        invariant
            s <= n,
            blk@.len() == s,
            forall|s2: int| 0 <= s2 < s ==> (#[trigger] blk@[s2]) == 0,
        decreases n - s,
    {
        blk.push(0);
        s = s + 1;
    }
    proof {
        assert(rep_style(blk@));
        assert(sep(*d, blk@));
    }
    let mut stable = false;
    while !stable
        invariant
            d.wf(),
            n == d.n(),
            blk@.len() == n,
            rep_style(blk@),
            sep(*d, blk@),
            forall|q: Seq<usize>| #[trigger] stable_for(*d, q) ==> coarser(blk@, q, n as int),
            stable ==> stable_partition(*d, blk@),
        decreases (n * n - blk_sum(blk@)) * 2 + (if stable {
            0int
        } else {
            1int
        }),
    {
        let nblk = regroup(d, &blk);
        let same = crate::direct_afd::vec_eq_usize(&nblk, &blk);
        proof {
            assert forall|i: int| 0 <= i < n implies #[trigger] blk@[i] <= n as int by {
                assert(blk@[i] <= i);
            }
            lemma_blk_sum_bound(blk@, n as int);
        }
        proof {
            // Every new id is at least the old one: anything agreeing
            // with `s` in key lies in `s`'s old block, and the old
            // block starts at its representative.
            assert forall|s2: int| 0 <= s2 < n implies blk@[s2] <= #[trigger] nblk@[s2] by {
                if nblk@[s2] < blk@[s2] {
                    assert(key_eq(*d, blk@, nblk@[s2] as int, s2));
                    assert(blk@[nblk@[s2] as int] == blk@[s2]);
                    assert(blk@[nblk@[s2] as int] != blk@[s2]);
                }
            }
        }
        if same {
            proof {
                assert forall|s2: int| 0 <= s2 < n implies #[trigger] key_eq(
                    *d,
                    blk@,
                    blk@[s2] as int,
                    s2,
                ) by {
                    assert(key_eq(*d, blk@, nblk@[s2] as int, s2));
                }
            }
            stable = true;
        } else {
            proof {
                // The refined partition is strictly finer, so the sum
                // of representatives strictly grows.
                assert(exists|i: int| 0 <= i < n && #[trigger] blk@[i] < nblk@[i]) by {
                    assert(exists|i: int| 0 <= i < n && #[trigger] nblk@[i] != blk@[i]) by {
                        if forall|i: int| 0 <= i < n ==> #[trigger] nblk@[i] == blk@[i] {
                            assert(nblk@ =~= blk@);
                        }
                    }
                    let i = choose|i: int| 0 <= i < n && #[trigger] nblk@[i] != blk@[i];
                    assert(blk@[i] < nblk@[i]);
                }
                lemma_blk_sum_pointwise_lt(blk@, nblk@);
                lemma_blk_sum_bound(nblk@, n as int);
                lemma_blk_sum_bound(blk@, n as int);
                // Representative style of the refined partition, using
                // that key agreement is transitive.
                assert forall|s2: int| 0 <= s2 < n implies (#[trigger] nblk@[s2]) <= s2
                    && nblk@[nblk@[s2] as int] == nblk@[s2] && (forall|j: int|
                    0 <= j < nblk@[s2] ==> #[trigger] nblk@[j] != nblk@[s2]) by {
                    let r0 = nblk@[s2] as int;
                    assert(key_eq(*d, blk@, r0, s2));
                    assert(nblk@[r0] <= r0);
                    if nblk@[r0] < r0 {
                        assert(key_eq(*d, blk@, nblk@[r0] as int, r0));
                        assert(key_eq(*d, blk@, nblk@[r0] as int, s2));
                        assert(!key_eq(*d, blk@, nblk@[r0] as int, s2));
                        assert(false);
                    }
                    assert forall|j: int| 0 <= j < nblk@[s2] implies #[trigger] nblk@[j]
                        != nblk@[s2] by {
                        if nblk@[j] == nblk@[s2] {
                            assert(key_eq(*d, blk@, nblk@[j] as int, j));
                            assert(key_eq(*d, blk@, r0, j));
                            assert(key_eq(*d, blk@, j, s2));
                            assert(!key_eq(*d, blk@, j, s2));
                        }
                    }
                }
                // Separation carries to the refined partition: a block
                // split is witnessed by the old key, whose parts only
                // sharpen.
                assert forall|s1: int, s2: int|
                    #![trigger nblk@[s1], nblk@[s2]]
                    0 <= s1 < n && 0 <= s2 < n && nblk@[s1] != nblk@[s2] implies !same_behavior(
                    *d,
                    blk@,
                    s1,
                    s2,
                ) || blk@[s1] != blk@[s2] by {
                    if blk@[s1] == blk@[s2] && same_behavior(*d, blk@, s1, s2) {
                        assert(key_eq(*d, blk@, s1, s2));
                        if nblk@[s1] < nblk@[s2] {
                            assert(key_eq(*d, blk@, nblk@[s1] as int, s1));
                            assert(key_eq(*d, blk@, nblk@[s1] as int, s2));
                            assert(!key_eq(*d, blk@, nblk@[s1] as int, s2));
                        } else {
                            assert(key_eq(*d, blk@, nblk@[s2] as int, s2));
                            assert(key_eq(*d, blk@, nblk@[s2] as int, s1));
                            assert(!key_eq(*d, blk@, nblk@[s2] as int, s1));
                        }
                        assert(false);
                    }
                }
                assert forall|s1: int, s2: int|
                    #![trigger nblk@[s1], nblk@[s2]]
                    0 <= s1 < n && 0 <= s2 < n && nblk@[s1] != nblk@[s2] implies !same_behavior(
                    *d,
                    nblk@,
                    s1,
                    s2,
                ) by {
                    if same_behavior(*d, nblk@, s1, s2) {
                        assert forall|t1: int, t2: int|
                            #![trigger blk@[t1], blk@[t2]]
                            0 <= t1 < n && 0 <= t2 < n && blk@[t1] != blk@[t2] implies nblk@[t1]
                            != nblk@[t2] by {
                            if nblk@[t1] == nblk@[t2] {
                                assert(key_eq(*d, blk@, nblk@[t1] as int, t1));
                                assert(key_eq(*d, blk@, nblk@[t2] as int, t2));
                            }
                        }
                        lemma_maprow_compose(*d, blk@, nblk@, s1, s2);
                        assert(same_behavior(*d, blk@, s1, s2));
                        assert(blk@[s1] != blk@[s2]);
                        assert(!same_behavior(*d, blk@, s1, s2));
                        assert(false);
                    }
                }
                // The refined partition still joins whatever any stable
                // partition joins: agreement under a finer partition
                // lifts to agreement under the current one, which the
                // grouping key decides.
                assert forall|q: Seq<usize>| #[trigger] stable_for(*d, q) implies coarser(
                    nblk@,
                    q,
                    n as int,
                ) by {
                    assert(coarser(blk@, q, n as int));
                    assert forall|s1: int, s2: int|
                        #![trigger q[s1], q[s2]]
                        0 <= s1 < n && 0 <= s2 < n && q[s1] == q[s2] implies nblk@[s1]
                        == nblk@[s2] by {
                        assert(same_behavior(*d, q, s1, s2));
                        assert(blk@[s1] == blk@[s2]);
                        assert forall|t1: int, t2: int|
                            #![trigger blk@[t1], blk@[t2]]
                            0 <= t1 < n && 0 <= t2 < n && blk@[t1] != blk@[t2] implies q[t1]
                            != q[t2] by {}
                        lemma_maprow_compose(*d, blk@, q, s1, s2);
                        assert(key_eq(*d, blk@, s1, s2));
                        assert(nblk@[s1] <= nblk@[s2]) by {
                            assert(key_eq(*d, blk@, nblk@[s2] as int, s2));
                            assert(key_eq(*d, blk@, nblk@[s2] as int, s1));
                            if nblk@[s2] < nblk@[s1] {
                                assert(!key_eq(*d, blk@, nblk@[s2] as int, s1));
                            }
                        }
                        assert(nblk@[s2] <= nblk@[s1]) by {
                            assert(key_eq(*d, blk@, nblk@[s1] as int, s1));
                            assert(key_eq(*d, blk@, nblk@[s1] as int, s2));
                            if nblk@[s1] < nblk@[s2] {
                                assert(!key_eq(*d, blk@, nblk@[s1] as int, s2));
                            }
                        }
                    }
                }
            }
            blk = nblk;
        }
    }
    // Compress representatives to dense block ids and build the
    // quotient tables from each block's representative.
    let mut reps: Vec<usize> = Vec::new();
    let mut dense: Vec<usize> = Vec::new();
    let mut s2: usize = 0;
    while s2 < n
        invariant
            n == d.n(),
            blk@.len() == n,
            rep_style(blk@),
            s2 <= n,
            dense@.len() == s2,
            forall|b: int|
                0 <= b < reps@.len() ==> (#[trigger] reps@[b]) < s2 && blk@[reps@[b] as int]
                    == reps@[b] && dense@[reps@[b] as int] == b,
            forall|s3: int|
                0 <= s3 < s2 && blk@[s3] == s3 ==> (#[trigger] dense@[s3]) < reps@.len()
                    && reps@[dense@[s3] as int] == s3,
            forall|b1: int, b2: int|
                0 <= b1 < b2 < reps@.len() ==> (#[trigger] reps@[b1]) < (#[trigger] reps@[b2]),
            reps@.len() <= s2,
        decreases n - s2,
    {
        if blk[s2] == s2 {
            dense.push(reps.len());
            reps.push(s2);
        } else {
            dense.push(0);
        }
        s2 = s2 + 1;
    }
    let nb = reps.len();
    let mut blk2: Vec<usize> = Vec::new();
    let mut s3: usize = 0;
    while s3 < n
        invariant
            n == d.n(),
            blk@.len() == n,
            rep_style(blk@),
            s3 <= n,
            blk2@.len() == s3,
            nb == reps@.len(),
            dense@.len() == n,
            forall|b: int|
                0 <= b < nb ==> (#[trigger] reps@[b]) < n && blk@[reps@[b] as int] == reps@[b]
                    && dense@[reps@[b] as int] == b,
            forall|s4: int|
                0 <= s4 < n && blk@[s4] == s4 ==> (#[trigger] dense@[s4]) < nb
                    && reps@[dense@[s4] as int] == s4,
            forall|b1: int, b2: int|
                0 <= b1 < b2 < nb ==> (#[trigger] reps@[b1]) < (#[trigger] reps@[b2]),
            forall|s4: int|
                0 <= s4 < s3 ==> (#[trigger] blk2@[s4]) < nb && reps@[blk2@[s4] as int]
                    == blk@[s4],
        decreases n - s3,
    {
        let b = blk[s3];
        proof {
            assert(blk@[b as int] == blk@[s3 as int]);
        }
        blk2.push(dense[b]);
        s3 = s3 + 1;
    }
    let (mtrans, macc) = build_quotient_tables(d, &blk2, &reps);
    let start2 = blk2[d.start];
    let m = Dfa { transitions: mtrans, accept: macc, start: start2 };
    proof {
        assert forall|b3: int| 0 <= b3 < nb implies (#[trigger] m.accept@[b3])
            == d.accept@[reps@[b3] as int] by {
            assert(m.transitions@[b3]@ == map_row(d.transitions@[reps@[b3] as int]@, blk2@));
        }
        lemma_quotient_ok(*d, m, blk@, blk2@, reps@);
        assert forall|q: Seq<usize>| #[trigger] stable_for(*d, q) implies coarser(
            blk2@,
            q,
            n as int,
        ) by {
            assert(coarser(blk@, q, n as int));
            assert forall|s1: int, s2: int|
                #![trigger q[s1], q[s2]]
                0 <= s1 < n && 0 <= s2 < n && q[s1] == q[s2] implies blk2@[s1] == blk2@[s2] by {
                assert(blk@[s1] == blk@[s2]);
                assert(dense@[blk@[s1] as int] == dense@[blk@[s2] as int]);
            }
        }
    }
    (m, blk2)
}

} // verus!

verus! {

/// Builds the quotient's transition and accept tables, one row per
/// block, from each block's representative.
fn build_quotient_tables(d: &Dfa, blk2: &Vec<usize>, reps: &Vec<usize>) -> (r: (
    Vec<Vec<(Sym, usize)>>,
    Vec<Option<usize>>,
))
    requires
        d.wf(),
        blk2@.len() == d.n(),
        forall|b2: int| 0 <= b2 < reps@.len() ==> (#[trigger] reps@[b2]) < d.n(),
        forall|s4: int| 0 <= s4 < d.n() ==> (#[trigger] blk2@[s4]) < reps@.len(),
    ensures
        r.0@.len() == reps@.len(),
        r.1@.len() == reps@.len(),
        forall|b2: int|
            0 <= b2 < reps@.len() ==> (#[trigger] r.0@[b2]@) == map_row(
                d.transitions@[reps@[b2] as int]@,
                blk2@,
            ),
        forall|b2: int|
            0 <= b2 < reps@.len() ==> (#[trigger] r.1@[b2]) == d.accept@[reps@[b2] as int],
{
    let nb = reps.len();
    let n = d.transitions.len();
    let mut mtrans: Vec<Vec<(Sym, usize)>> = Vec::new();
    let mut macc: Vec<Option<usize>> = Vec::new();
    let mut b: usize = 0;
    while b < nb
        invariant
            d.wf(),
            n == d.n(),
            blk2@.len() == n,
            nb == reps@.len(),
            forall|b2: int| 0 <= b2 < nb ==> (#[trigger] reps@[b2]) < n,
            forall|s4: int| 0 <= s4 < n ==> (#[trigger] blk2@[s4]) < nb,
            b <= nb,
            mtrans@.len() == b,
            macc@.len() == b,
            forall|b2: int|
                0 <= b2 < b ==> (#[trigger] mtrans@[b2]@) == map_row(
                    d.transitions@[reps@[b2] as int]@,
                    blk2@,
                ),
            forall|b2: int| 0 <= b2 < b ==> (#[trigger] macc@[b2]) == d.accept@[reps@[b2] as int],
        decreases nb - b,
    {
        let r0 = reps[b];
        let rowref = &d.transitions[r0];
        let m0 = rowref.len();
        let mut mrow: Vec<(Sym, usize)> = Vec::new();
        let mut k: usize = 0;
        while k < m0
            invariant
                d.wf(),
                n == d.n(),
                blk2@.len() == n,
                forall|s4: int| 0 <= s4 < n ==> (#[trigger] blk2@[s4]) < nb,
                r0 < n,
                rowref@ == d.transitions@[r0 as int]@,
                m0 == rowref@.len(),
                k <= m0,
                mrow@.len() == k,
                forall|j: int| 0 <= j < k ==> (#[trigger] mrow@[j]) == map_row(rowref@, blk2@)[j],
            decreases m0 - k,
        {
            let e = rowref[k];
            proof {
                assert(row_wf(rowref@, d.n()));
                assert(e.1 < n);
            }
            mrow.push((e.0, blk2[e.1]));
            k = k + 1;
        }
        proof {
            assert(mrow@ =~= map_row(rowref@, blk2@));
        }
        let ghost mrowv = mrow@;
        mtrans.push(mrow);
        macc.push(d.accept[r0]);
        b = b + 1;
    }
    (mtrans, macc)
}

/// Assembles the quotient's guarantees from the stable partition: the
/// renamed tables, preserved tags and rows, surjectivity onto blocks,
/// and pairwise distinguishable quotient states.
#[verifier::rlimit(100)]
proof fn lemma_quotient_ok(d: Dfa, m: Dfa, blk: Seq<usize>, blk2: Seq<usize>, reps: Seq<usize>)
    requires
        d.wf(),
        blk.len() == d.n(),
        blk2.len() == d.n(),
        rep_style(blk),
        sep(d, blk),
        stable_partition(d, blk),
        m.transitions@.len() == reps.len(),
        m.accept@.len() == reps.len(),
        reps.len() <= d.n(),
        forall|b: int|
            0 <= b < reps.len() ==> (#[trigger] reps[b]) < d.n() && blk[reps[b] as int] == reps[b],
        forall|b1: int, b2: int|
            0 <= b1 < b2 < reps.len() ==> (#[trigger] reps[b1]) < (#[trigger] reps[b2]),
        forall|s: int|
            0 <= s < d.n() ==> (#[trigger] blk2[s]) < reps.len() && reps[blk2[s] as int] == blk[s],
        forall|b: int|
            0 <= b < reps.len() ==> (#[trigger] m.transitions@[b]@) == map_row(
                d.transitions@[reps[b] as int]@,
                blk2,
            ),
        forall|b: int|
            0 <= b < reps.len() ==> (#[trigger] m.accept@[b]) == d.accept@[reps[b] as int],
        m.start == blk2[d.start as int],
    ensures
        minimized_ok(d, m, blk2),
{
    let n = d.n();
    let nb = reps.len() as int;
    // Equal old blocks give equal new blocks and conversely.
    assert forall|s1: int, s2: int|
        #![trigger blk2[s1], blk2[s2]]
        0 <= s1 < n && 0 <= s2 < n implies (blk[s1] == blk[s2] <==> blk2[s1] == blk2[s2]) by {
        if blk2[s1] == blk2[s2] {
            assert(reps[blk2[s1] as int] == blk[s1]);
            assert(reps[blk2[s2] as int] == blk[s2]);
        }
        if blk[s1] == blk[s2] {
            if blk2[s1] != blk2[s2] {
                if blk2[s1] < blk2[s2] {
                    assert(reps[blk2[s1] as int] < reps[blk2[s2] as int]);
                } else {
                    assert(reps[blk2[s2] as int] < reps[blk2[s1] as int]);
                }
            }
        }
    }
    // Well-formedness of the quotient tables.
    assert forall|b: int| 0 <= b < nb implies row_wf(#[trigger] m.transitions@[b]@, nb) by {
        let r0 = reps[b] as int;
        let row = d.transitions@[r0]@;
        assert(row_wf(row, n));
        let mrow = m.transitions@[b]@;
        assert(mrow == map_row(row, blk2));
        assert forall|k: int| 0 <= k < mrow.len() implies (#[trigger] mrow[k]).1 < nb by {
            assert(row[k].1 < n);
        }
        assert forall|k1: int, k2: int| 0 <= k1 < k2 < mrow.len() implies crate::direct_afd::sym_key(
            (#[trigger] mrow[k1]).0,
        ) < crate::direct_afd::sym_key((#[trigger] mrow[k2]).0) by {
            assert(mrow[k1].0 == row[k1].0 && mrow[k2].0 == row[k2].0);
        }
        assert forall|k1: int, k2: int|
            0 <= k1 < mrow.len() && 0 <= k2 < mrow.len() && k1 != k2 implies
            crate::direct_afd::ranges_disjoint(
            (#[trigger] mrow[k1]).0,
            (#[trigger] mrow[k2]).0,
        ) by {
            assert(mrow[k1].0 == row[k1].0 && mrow[k2].0 == row[k2].0);
            assert(crate::direct_afd::ranges_disjoint(row[k1].0, row[k2].0));
        }
    }
    assert(m.wf());
    // Tags and renamed rows are preserved for every state.
    assert forall|s: int| 0 <= s < n implies m.accept@[(#[trigger] blk2[s]) as int]
        == d.accept@[s] by {
        assert(key_eq(d, blk, blk[s] as int, s));
        assert(m.accept@[blk2[s] as int] == d.accept@[reps[blk2[s] as int] as int]);
        assert(reps[blk2[s] as int] == blk[s]);
    }
    assert forall|s: int| 0 <= s < n implies m.transitions@[(#[trigger] blk2[s]) as int]@
        == map_row(d.transitions@[s]@, blk2) by {
        assert(key_eq(d, blk, blk[s] as int, s));
        assert(map_row(d.transitions@[blk[s] as int]@, blk) == map_row(d.transitions@[s]@, blk));
        assert forall|t1: int, t2: int|
            #![trigger blk2[t1], blk2[t2]]
            0 <= t1 < n && 0 <= t2 < n && blk2[t1] != blk2[t2] implies blk[t1] != blk[t2] by {}
        lemma_maprow_compose(d, blk2, blk, blk[s] as int, s);
        assert(m.transitions@[blk2[s] as int]@ == map_row(d.transitions@[reps[blk2[s] as int] as int]@, blk2));
        assert(reps[blk2[s] as int] == blk[s]);
    }
    // Every quotient state is the image of its representative.
    assert forall|b: int| 0 <= b < nb implies #[trigger] block_inhabited(d, blk2, b) by {
        let r0 = reps[b] as int;
        assert(blk[r0] == reps[b]);
        assert(reps[blk2[r0] as int] == blk[r0]);
        if blk2[r0] as int != b {
            if (blk2[r0] as int) < b {
                assert(reps[blk2[r0] as int] < reps[b]);
            } else {
                assert(reps[b] < reps[blk2[r0] as int]);
            }
        }
        assert(blk2[r0] as int == b);
    }
    // Distinct quotient states differ in tag or transition table.
    assert forall|b1: int, b2: int|
        #![trigger m.transitions@[b1]@, m.transitions@[b2]@]
        0 <= b1 < nb && 0 <= b2 < nb && b1 != b2 implies !(m.accept@[b1] == m.accept@[b2]
        && m.transitions@[b1]@ == m.transitions@[b2]@) by {
        let r1 = reps[b1] as int;
        let r2 = reps[b2] as int;
        if b1 < b2 {
            assert(reps[b1] < reps[b2]);
        } else {
            assert(reps[b2] < reps[b1]);
        }
        assert(blk[r1] == reps[b1] && blk[r2] == reps[b2]);
        assert(blk[r1] != blk[r2]);
        assert(!same_behavior(d, blk, r1, r2));
        if m.accept@[b1] == m.accept@[b2] && m.transitions@[b1]@ == m.transitions@[b2]@ {
            assert(d.accept@[r1] == d.accept@[r2]);
            assert(map_row(d.transitions@[r1]@, blk2) == map_row(d.transitions@[r2]@, blk2));
            assert forall|t1: int, t2: int|
                #![trigger blk[t1], blk[t2]]
                0 <= t1 < n && 0 <= t2 < n && blk[t1] != blk[t2] implies blk2[t1] != blk2[t2] by {}
            lemma_maprow_compose(d, blk, blk2, r1, r2);
            assert(same_behavior(d, blk, r1, r2));
            assert(false);
        }
    }
}

} // verus!

verus! {

/// A successful step stays inside the automaton.
proof fn lemma_dfa_step_bound(d: Dfa, s: int, cp: int)
    requires
        d.wf(),
        0 <= s < d.n(),
    ensures
        crate::direct_afd::dfa_step(d, s, cp) matches Some(t) ==> 0 <= t < d.n(),
{
    let row = d.transitions@[s]@;
    assert(row_wf(row, d.n()));
    crate::direct_afd::lemma_row_find_lit_iff(row, 0, cp);
    crate::direct_afd::lemma_row_find_range_iff(row, 0, cp);
    match crate::direct_afd::dfa_step(d, s, cp) {
        Some(t) => {
            match crate::direct_afd::row_find_lit(row, 0, cp) {
                Some(t1) => {
                    let j = choose|j: int|
                        0 <= j < row.len() && (#[trigger] row[j]).0 is Lit && crate::direct_afd::sym_covers(
                            row[j].0,
                            cp,
                        ) && row[j].1 == t1;
                },
                None => {
                    match crate::direct_afd::row_find_range(row, 0, cp) {
                        Some(t2) => {
                            let j = choose|j: int|
                                0 <= j < row.len() && (#[trigger] row[j]).0 is Range
                                    && crate::direct_afd::sym_covers(row[j].0, cp) && row[j].1
                                    == t2;
                        },
                        None => {},
                    }
                },
            }
        },
        None => {},
    }
}

/// Finding an edge in a renamed row finds the renamed edge.
proof fn lemma_map_row_find(row: Seq<(Sym, usize)>, b: Seq<usize>, k: int, cp: int)
    requires
        0 <= k,
        forall|j: int| 0 <= j < row.len() ==> (#[trigger] row[j]).1 < b.len(),
    ensures
        crate::direct_afd::row_find_lit(map_row(row, b), k, cp) == (
        match crate::direct_afd::row_find_lit(row, k, cp) {
            Some(t) => Some(b[t as int]),
            None => None::<usize>,
        }),
        crate::direct_afd::row_find_range(map_row(row, b), k, cp) == (
        match crate::direct_afd::row_find_range(row, k, cp) {
            Some(t) => Some(b[t as int]),
            None => None::<usize>,
        }),
    decreases row.len() - k,
{
    if k < row.len() {
        lemma_map_row_find(row, b, k + 1, cp);
        assert(map_row(row, b)[k] == (row[k].0, b[row[k].1 as int]));
    }
}

/// The quotient's step renames the original's step.
proof fn lemma_quotient_step(d: Dfa, m: Dfa, blk: Seq<usize>, s: int, cp: int)
    requires
        d.wf(),
        minimized_ok(d, m, blk),
        0 <= s < d.n(),
    ensures
        crate::direct_afd::dfa_step(m, blk[s] as int, cp) == (
        match crate::direct_afd::dfa_step(d, s, cp) {
            Some(t) => Some(blk[t] as int),
            None => None::<int>,
        }),
{
    let row = d.transitions@[s]@;
    assert(row_wf(row, d.n()));
    assert(m.transitions@[blk[s] as int]@ == map_row(row, blk));
    assert forall|j: int| 0 <= j < row.len() implies (#[trigger] row[j]).1 < blk.len() by {}
    lemma_map_row_find(row, blk, 0, cp);
    lemma_dfa_step_bound(d, s, cp);
}

/// The quotient munches exactly what the original munches.
proof fn lemma_quotient_munch(d: Dfa, m: Dfa, blk: Seq<usize>, cs: Seq<char>, s: int, k: int)
    requires
        d.wf(),
        minimized_ok(d, m, blk),
        0 <= s < d.n(),
    ensures
        crate::simulation::munch_from(m, blk[s] as int, cs, k) == crate::simulation::munch_from(
            d,
            s,
            cs,
            k,
        ),
    decreases cs.len() - k,
{
    if 0 <= k < cs.len() {
        lemma_quotient_step(d, m, blk, s, cs[k] as int);
        match crate::direct_afd::dfa_step(d, s, cs[k] as int) {
            Some(t) => {
                lemma_dfa_step_bound(d, s, cs[k] as int);
                lemma_quotient_munch(d, m, blk, cs, t, k + 1);
                assert(m.accept@[blk[t] as int] == d.accept@[t]);
            },
            None => {},
        }
    }
}

/// Minimization preserves the scanner's whole token stream: on every
/// input and from every cursor, the quotient automaton yields the same
/// sequence of tags and lexemes, or fails at the same position.
pub proof fn lemma_minimize_preserves_scan(
    d: Dfa,
    m: Dfa,
    blk: Seq<usize>,
    cs: Seq<char>,
    c: int,
)
    requires
        d.wf(),
        minimized_ok(d, m, blk),
        0 <= c,
    ensures
        crate::simulation::scan_spec(m, cs, c) == crate::simulation::scan_spec(d, cs, c),
    decreases cs.len() - c,
{
    if c < cs.len() {
        assert(m.start == blk[d.start as int]);
        lemma_quotient_munch(d, m, blk, cs, d.start as int, c);
        match crate::simulation::munch_from(d, d.start as int, cs, c) {
            Some(r) => {
                crate::simulation::lemma_munch_bounds(d, d.start as int, cs, c);
                lemma_minimize_preserves_scan(d, m, blk, cs, r.0);
            },
            None => {},
        }
    }
}

/// The quotient's run renames the original's run.
proof fn lemma_quotient_run(d: Dfa, m: Dfa, blk: Seq<usize>, cs: Seq<char>, s: int, i: int)
    requires
        d.wf(),
        minimized_ok(d, m, blk),
        0 <= s < d.n(),
    ensures
        crate::simulation::run_from(m, blk[s] as int, cs, i) == (
        match crate::simulation::run_from(d, s, cs, i) {
            Some(t) => Some(blk[t] as int),
            None => None::<int>,
        }),
        crate::simulation::run_from(d, s, cs, i) matches Some(t) ==> 0 <= t < d.n(),
    decreases cs.len() - i,
{
    if 0 <= i < cs.len() {
        lemma_quotient_step(d, m, blk, s, cs[i] as int);
        match crate::direct_afd::dfa_step(d, s, cs[i] as int) {
            Some(t) => {
                lemma_dfa_step_bound(d, s, cs[i] as int);
                lemma_quotient_run(d, m, blk, cs, t, i + 1);
            },
            None => {},
        }
    }
}

/// Minimization preserves whole-string acceptance.
pub proof fn lemma_minimize_preserves_accepts(d: Dfa, m: Dfa, blk: Seq<usize>, cs: Seq<char>)
    requires
        d.wf(),
        minimized_ok(d, m, blk),
    ensures
        crate::simulation::accepts(m, cs) == crate::simulation::accepts(d, cs),
{
    assert(m.start == blk[d.start as int]);
    lemma_quotient_run(d, m, blk, cs, d.start as int, 0);
    match crate::simulation::run_from(d, d.start as int, cs, 0) {
        Some(t) => {
            assert(m.accept@[blk[t] as int] == d.accept@[t]);
        },
        None => {},
    }
}

} // verus!

verus! {

/// Renaming twice is renaming through the composed partition.
proof fn lemma_map_row_twice(row: Seq<(Sym, usize)>, b1: Seq<usize>, b2: Seq<usize>, q: Seq<usize>)
    requires
        forall|k: int| 0 <= k < row.len() ==> (#[trigger] row[k]).1 < b1.len(),
        forall|s: int| 0 <= s < b1.len() ==> (#[trigger] b1[s]) < b2.len(),
        q.len() == b1.len(),
        forall|s: int| 0 <= s < b1.len() ==> (#[trigger] q[s]) == b2[b1[s] as int],
    ensures
        map_row(map_row(row, b1), b2) == map_row(row, q),
{
    assert(map_row(map_row(row, b1), b2) =~= map_row(row, q));
}

/// Minimization is idempotent up to state renaming: minimizing a
/// quotient that came from the coarsest stable partition renames its
/// states one-to-one, so the second quotient has exactly as many
/// states, and carries the same renamed rows, tags, and start state as
/// recorded by its renaming.
pub proof fn lemma_minimize_idempotent(
    d: Dfa,
    m: Dfa,
    blk: Seq<usize>,
    m2: Dfa,
    blk2: Seq<usize>,
)
    requires
        d.wf(),
        minimized_ok(d, m, blk),
        forall|q: Seq<usize>| #[trigger] stable_for(d, q) ==> coarser(blk, q, d.n()),
        minimized_ok(m, m2, blk2),
    ensures
        m2.n() == m.n(),
        forall|b1: int, b2: int|
            #![trigger blk2[b1], blk2[b2]]
            0 <= b1 < m.n() && 0 <= b2 < m.n() && b1 != b2 ==> blk2[b1] != blk2[b2],
{
    let n = d.n();
    assert(m.wf());
    let q = Seq::new(n as nat, |s: int| blk2[blk[s] as int]);
    assert(stable_for(d, q)) by {
        assert forall|s1: int, s2: int|
            #![trigger q[s1], q[s2]]
            0 <= s1 < n && 0 <= s2 < n && q[s1] == q[s2] implies same_behavior(d, q, s1, s2) by {
            let b1 = blk[s1] as int;
            let b2 = blk[s2] as int;
            assert(blk2[b1] == blk2[b2]);
            // Tags agree through both quotients.
            assert(m2.accept@[blk2[b1] as int] == m.accept@[b1]);
            assert(m2.accept@[blk2[b2] as int] == m.accept@[b2]);
            assert(m.accept@[b1] == d.accept@[s1]);
            assert(m.accept@[b2] == d.accept@[s2]);
            // Rows agree through both quotients.
            assert(m2.transitions@[blk2[b1] as int]@ == map_row(m.transitions@[b1]@, blk2));
            assert(m2.transitions@[blk2[b2] as int]@ == map_row(m.transitions@[b2]@, blk2));
            assert(m.transitions@[b1]@ == map_row(d.transitions@[s1]@, blk));
            assert(m.transitions@[b2]@ == map_row(d.transitions@[s2]@, blk));
            assert(row_wf(d.transitions@[s1]@, n));
            assert(row_wf(d.transitions@[s2]@, n));
            lemma_map_row_twice(d.transitions@[s1]@, blk, blk2, q);
            lemma_map_row_twice(d.transitions@[s2]@, blk, blk2, q);
            assert(map_row(d.transitions@[s1]@, q) == map_row(d.transitions@[s2]@, q));
        }
    }
    assert(coarser(blk, q, n));
    assert forall|b1: int, b2: int|
        #![trigger blk2[b1], blk2[b2]]
        0 <= b1 < m.n() && 0 <= b2 < m.n() && b1 != b2 implies blk2[b1] != blk2[b2] by {
        if blk2[b1] == blk2[b2] {
            assert(block_inhabited(d, blk, b1));
            assert(block_inhabited(d, blk, b2));
            let s1 = choose|s: int| 0 <= s < d.n() && (#[trigger] blk[s]) as int == b1;
            let s2 = choose|s: int| 0 <= s < d.n() && (#[trigger] blk[s]) as int == b2;
            assert(q[s1] == q[s2]);
            assert(blk[s1] == blk[s2]);
            assert(false);
        }
    }
    // An injection of the first quotient's states into the second's
    // forces equal state counts.
    let ids = Seq::new(m.n() as nat, |b: int| blk2[b] as int);
    assert(ids.no_duplicates()) by {
        assert forall|i1: int, i2: int|
            0 <= i1 < ids.len() && 0 <= i2 < ids.len() && i1 != i2 implies ids[i1] != ids[i2] by {
            assert(blk2[i1] != blk2[i2]);
        }
    }
    ids.unique_seq_to_set();
    let range = vstd::set_lib::set_int_range(0, m2.n());
    vstd::set_lib::lemma_int_range(0, m2.n());
    assert(ids.to_set().subset_of(range)) by {
        assert forall|v: int| ids.to_set().contains(v) implies range.contains(v) by {
            let i = choose|i: int| 0 <= i < ids.len() && ids[i] == v;
            assert(blk2[i] < m2.n());
        }
    }
    vstd::set_lib::lemma_len_subset(ids.to_set(), range);
}

} // verus!

verus! {

/// End to end for one literal rule: the minimized automaton built from
/// the single-literal tree accepts exactly the one-character string
/// holding that literal.
pub proof fn lemma_single_literal_minimized(
    c: char,
    d0: Dfa,
    sets: Seq<Vec<usize>>,
    m: Dfa,
    blk: Seq<usize>,
    cs: Seq<char>,
)
    requires
        crate::direct_afd::create_states_ok(
            crate::direct_afd::arena_of(crate::simulation::single_literal_tree(c), 0),
            d0,
            sets,
        ),
        minimized_ok(d0, m, blk),
    ensures
        crate::simulation::accepts(m, cs) <==> cs == seq![c],
{
    crate::simulation::lemma_single_literal_language(c, d0, sets, cs);
    lemma_minimize_preserves_accepts(d0, m, blk, cs);
}

} // verus!
