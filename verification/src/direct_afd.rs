//! Position analysis and direct DFA construction.
//!
//! The syntax tree is first flattened into an arena in post-order, so
//! that every node's children come before it and a single bottom-up pass
//! computes each table. The literal, range, and sentinel leaves carry
//! the dense positions 1..N, assigned left to right; internal nodes and
//! empty-word leaves carry no position.

use vstd::arithmetic::power2::{
    lemma2_to64, lemma_pow2_adds, lemma_pow2_pos, lemma_pow2_strictly_increases, pow2,
};
use vstd::prelude::*;
use vstd::set_lib::{lemma_int_range, lemma_len_subset, set_int_range};

use crate::errors::CompileError;
use crate::grammar_tree::{tree_wf, TreeNode};
use crate::inf_to_pos::{is_atom, Token};

verus! {

/// One record of the flattened syntax tree. Children are arena indices,
/// always smaller than the record's own index.
#[derive(Debug, Clone, PartialEq, Eq, Structural)]
pub struct ArenaNode {
    pub value: Token,
    pub left: Option<usize>,
    pub right: Option<usize>,
}

/// Whether a token value carries a position when it stands at a leaf:
/// literals, ranges, and the sentinel do; the empty word does not.
pub open spec fn positioned(v: Token) -> bool {
    v is Literal || v is Range || v is Sentinel
}

/// How many positioned leaves lie among the first `k` arena records.
pub open spec fn pos_count(a: Seq<ArenaNode>, k: int) -> int
    decreases k,
{
    if k <= 0 {
        0
    } else {
        pos_count(a, k - 1) + if 0 <= k - 1 < a.len() && positioned(a[k - 1].value) {
            1int
        } else {
            0int
        }
    }
}

/// The 1-based position of the leaf at arena index `i`: its rank among
/// the positioned leaves in arena order. Leaves appear left to right in
/// the post-order arena, so position ids are dense 1..N over the
/// combined tree's leaves, in infix order.
pub open spec fn pos_of(a: Seq<ArenaNode>, i: int) -> int {
    pos_count(a, i) + 1
}

/// The arena index of the positioned leaf carrying position `p`,
/// scanning from index `i`; -1 when there is none.
pub open spec fn idx_of_pos(a: Seq<ArenaNode>, p: int, i: int) -> int
    decreases a.len() - i,
{
    if i < 0 || i >= a.len() {
        -1
    } else if positioned(a[i].value) && pos_of(a, i) == p {
        i
    } else {
        idx_of_pos(a, p, i + 1)
    }
}

/// Counting positioned leaves is monotone in the prefix length.
pub proof fn lemma_pos_count_mono(a: Seq<ArenaNode>, k1: int, k2: int)
    requires
        k1 <= k2,
    ensures
        pos_count(a, k1) <= pos_count(a, k2),
    decreases k2 - k1,
{
    if k1 < k2 {
        lemma_pos_count_mono(a, k1, k2 - 1);
    }
}

/// At most one positioned leaf per record.
pub proof fn lemma_pos_count_le(a: Seq<ArenaNode>, k: int)
    requires
        0 <= k,
    ensures
        0 <= pos_count(a, k) <= k,
    decreases k,
{
    if k > 0 {
        lemma_pos_count_le(a, k - 1);
    }
}

proof fn lemma_idx_scan(a: Seq<ArenaNode>, i: int, j: int)
    requires
        0 <= j <= i < a.len(),
        positioned(a[i].value),
    ensures
        idx_of_pos(a, pos_of(a, i), j) == i,
    decreases i - j,
{
    if j < i {
        if positioned(a[j].value) {
            // An earlier positioned leaf has a strictly smaller rank.
            assert(pos_count(a, j + 1) == pos_count(a, j) + 1);
            lemma_pos_count_mono(a, j + 1, i);
            assert(pos_of(a, j) < pos_of(a, i));
        }
        lemma_idx_scan(a, i, j + 1);
    }
}

/// The position of a positioned leaf leads back to its index.
pub proof fn lemma_idx_of_pos(a: Seq<ArenaNode>, i: int)
    requires
        0 <= i < a.len(),
        positioned(a[i].value),
    ensures
        idx_of_pos(a, pos_of(a, i), 0) == i,
{
    lemma_idx_scan(a, i, 0);
}

/// No leaf carries a position outside 1..=N.
pub proof fn lemma_idx_of_pos_none(a: Seq<ArenaNode>, p: int, i: int)
    requires
        0 <= i,
        p < 1 || p > pos_count(a, a.len() as int),
    ensures
        idx_of_pos(a, p, i) == -1,
    decreases a.len() - i,
{
    if 0 <= i < a.len() {
        if positioned(a[i].value) {
            lemma_pos_count_le(a, i);
            lemma_pos_count_mono(a, i + 1, a.len() as int);
            assert(pos_count(a, i + 1) == pos_count(a, i) + 1);
            assert(1 <= pos_of(a, i) <= pos_count(a, a.len() as int));
        }
        lemma_idx_of_pos_none(a, p, i + 1);
    }
}

/// A position-to-index table: entry `p - 1` is the arena index of the
/// leaf carrying position `p`.
pub open spec fn posidx_ok(a: Seq<ArenaNode>, px: Seq<usize>) -> bool {
    px.len() == pos_count(a, a.len() as int) && forall|p: int|
        1 <= p <= px.len() ==> (#[trigger] px[p - 1]) < a.len() && positioned(
            a[px[p - 1] as int].value,
        ) && pos_of(a, px[p - 1] as int) == p
}

/// A valid table inverts `pos_of` exactly where a position exists.
pub proof fn lemma_posidx_symbol(a: Seq<ArenaNode>, px: Seq<usize>, p: int)
    requires
        posidx_ok(a, px),
    ensures
        1 <= p <= px.len() ==> idx_of_pos(a, p, 0) == px[p - 1],
        (p < 1 || p > px.len()) ==> idx_of_pos(a, p, 0) == -1,
{
    if 1 <= p <= px.len() {
        lemma_idx_of_pos(a, px[p - 1] as int);
    } else {
        lemma_idx_of_pos_none(a, p, 0);
    }
}

/// The post-order flattening of a tree placed at base index `base`:
/// left subtree, right subtree, then the node itself.
pub open spec fn arena_of(t: TreeNode, base: int) -> Seq<ArenaNode>
    decreases t,
{
    let ls = match t.left {
        Some(b) => arena_of(*b, base),
        None => Seq::empty(),
    };
    let rs = match t.right {
        Some(b) => arena_of(*b, base + ls.len()),
        None => Seq::empty(),
    };
    let me = base + ls.len() + rs.len();
    ls + rs + seq![
        ArenaNode {
            value: t.value,
            left: match t.left {
                Some(_) => Some((base + ls.len() - 1) as usize),
                None => None,
            },
            right: match t.right {
                Some(_) => Some((me - 1) as usize),
                None => None,
            },
        },
    ]
}

/// Shape discipline of one arena record at index `i`: leaves have no
/// children, closures a left child only, binary nodes both, and all
/// child indices are smaller than `i`.
pub open spec fn node_wf(nd: ArenaNode, i: int) -> bool {
    if is_atom(nd.value) {
        nd.left is None && nd.right is None
    } else if nd.value is Kleene {
        match (nd.left, nd.right) {
            (Some(l), None) => l < i,
            _ => false,
        }
    } else if nd.value is Union || nd.value is Concat {
        match (nd.left, nd.right) {
            (Some(l), Some(r)) => l < i && r < i,
            _ => false,
        }
    } else {
        false
    }
}

/// Every record of the arena is well-shaped.
pub open spec fn arena_wf(a: Seq<ArenaNode>) -> bool {
    forall|i: int| 0 <= i < a.len() ==> node_wf(#[trigger] a[i], i)
}

/// Whether the subtree rooted at arena index `i` accepts the empty word.
pub open spec fn nullable_at(a: Seq<ArenaNode>, i: int) -> bool
    decreases i,
{
    if i < 0 || i >= a.len() {
        false
    } else {
        let nd = a[i];
        if nd.value is Empty {
            true
        } else if is_atom(nd.value) {
            false
        } else if nd.value is Kleene {
            true
        } else if nd.value is Union {
            match (nd.left, nd.right) {
                (Some(l), Some(r)) => (if l < i {
                    nullable_at(a, l as int)
                } else {
                    false
                }) || (if r < i {
                    nullable_at(a, r as int)
                } else {
                    false
                }),
                _ => false,
            }
        } else if nd.value is Concat {
            match (nd.left, nd.right) {
                (Some(l), Some(r)) => (if l < i {
                    nullable_at(a, l as int)
                } else {
                    false
                }) && (if r < i {
                    nullable_at(a, r as int)
                } else {
                    false
                }),
                _ => false,
            }
        } else {
            false
        }
    }
}

/// The firstpos set of the subtree rooted at arena index `i`: the
/// positions that can begin one of its matches.
pub open spec fn firstpos_at(a: Seq<ArenaNode>, i: int) -> Set<int>
    decreases i,
{
    if i < 0 || i >= a.len() {
        Set::empty()
    } else {
        let nd = a[i];
        if positioned(nd.value) {
            set![pos_of(a, i)]
        } else if nd.value is Empty {
            Set::empty()
        } else if nd.value is Union {
            match (nd.left, nd.right) {
                (Some(l), Some(r)) => (if l < i {
                    firstpos_at(a, l as int)
                } else {
                    Set::empty()
                }) + (if r < i {
                    firstpos_at(a, r as int)
                } else {
                    Set::empty()
                }),
                _ => Set::empty(),
            }
        } else if nd.value is Concat {
            match (nd.left, nd.right) {
                (Some(l), Some(r)) => {
                    let fl = if l < i {
                        firstpos_at(a, l as int)
                    } else {
                        Set::empty()
                    };
                    let fr = if r < i {
                        firstpos_at(a, r as int)
                    } else {
                        Set::empty()
                    };
                    if nullable_at(a, l as int) {
                        fl + fr
                    } else {
                        fl
                    }
                },
                _ => Set::empty(),
            }
        } else if nd.value is Kleene {
            match nd.left {
                Some(l) => if l < i {
                    firstpos_at(a, l as int)
                } else {
                    Set::empty()
                },
                None => Set::empty(),
            }
        } else {
            Set::empty()
        }
    }
}

/// The lastpos set of the subtree rooted at arena index `i`: the
/// positions that can end one of its matches.
pub open spec fn lastpos_at(a: Seq<ArenaNode>, i: int) -> Set<int>
    decreases i,
{
    if i < 0 || i >= a.len() {
        Set::empty()
    } else {
        let nd = a[i];
        if positioned(nd.value) {
            set![pos_of(a, i)]
        } else if nd.value is Empty {
            Set::empty()
        } else if nd.value is Union {
            match (nd.left, nd.right) {
                (Some(l), Some(r)) => (if l < i {
                    lastpos_at(a, l as int)
                } else {
                    Set::empty()
                }) + (if r < i {
                    lastpos_at(a, r as int)
                } else {
                    Set::empty()
                }),
                _ => Set::empty(),
            }
        } else if nd.value is Concat {
            match (nd.left, nd.right) {
                (Some(l), Some(r)) => {
                    let ll = if l < i {
                        lastpos_at(a, l as int)
                    } else {
                        Set::empty()
                    };
                    let lr = if r < i {
                        lastpos_at(a, r as int)
                    } else {
                        Set::empty()
                    };
                    if nullable_at(a, r as int) {
                        ll + lr
                    } else {
                        lr
                    }
                },
                _ => Set::empty(),
            }
        } else if nd.value is Kleene {
            match nd.left {
                Some(l) => if l < i {
                    lastpos_at(a, l as int)
                } else {
                    Set::empty()
                },
                None => Set::empty(),
            }
        } else {
            Set::empty()
        }
    }
}

/// What the node at arena index `i` adds to followpos of position `p`:
/// a concatenation links the last positions of its left child to the
/// first positions of its right child; a closure links its child's last
/// positions back to its child's first positions.
pub open spec fn follow_contrib(a: Seq<ArenaNode>, i: int, p: int) -> Set<int> {
    if 0 <= i < a.len() {
        let nd = a[i];
        if nd.value is Concat {
            match (nd.left, nd.right) {
                (Some(l), Some(r)) => if lastpos_at(a, l as int).contains(p) {
                    firstpos_at(a, r as int)
                } else {
                    Set::empty()
                },
                _ => Set::empty(),
            }
        } else if nd.value is Kleene {
            match nd.left {
                Some(l) => if lastpos_at(a, l as int).contains(p) {
                    firstpos_at(a, l as int)
                } else {
                    Set::empty()
                },
                None => Set::empty(),
            }
        } else {
            Set::empty()
        }
    } else {
        Set::empty()
    }
}

/// The contributions of the first `k` arena nodes to followpos of `p`.
pub open spec fn followpos_upto(a: Seq<ArenaNode>, k: int, p: int) -> Set<int>
    decreases k,
{
    if k <= 0 {
        Set::empty()
    } else {
        followpos_upto(a, k - 1, p) + follow_contrib(a, k - 1, p)
    }
}

/// The followpos set of position `p` over the whole arena.
pub open spec fn spec_followpos(a: Seq<ArenaNode>, p: int) -> Set<int> {
    followpos_upto(a, a.len() as int, p)
}

/// A strictly increasing sequence: the canonical form of a position set.
pub open spec fn sorted_strict(s: Seq<usize>) -> bool {
    forall|i: int, j: int| 0 <= i < j < s.len() ==> s[i] < s[j]
}

/// The set of positions a canonical vector holds.
pub open spec fn pos_set(s: Seq<usize>) -> Set<int>
    decreases s.len(),
{
    if s.len() == 0 {
        Set::empty()
    } else {
        pos_set(s.drop_last()).insert(s.last() as int)
    }
}

/// Membership in `pos_set` is membership in the sequence.
pub proof fn lemma_pos_set_iff(s: Seq<usize>, p: int)
    ensures
        pos_set(s).contains(p) <==> exists|k: int| 0 <= k < s.len() && p == s[k] as int,
    decreases s.len(),
{
    if s.len() > 0 {
        lemma_pos_set_iff(s.drop_last(), p);
        if pos_set(s).contains(p) {
            if p == s.last() as int {
                assert(p == s[s.len() - 1] as int);
            } else {
                let k = choose|k: int| 0 <= k < s.drop_last().len() && p == s.drop_last()[k] as int;
                assert(p == s[k] as int);
            }
        }
        if exists|k: int| 0 <= k < s.len() && p == s[k] as int {
            let k = choose|k: int| 0 <= k < s.len() && p == s[k] as int;
            if k < s.len() - 1 {
                assert(p == s.drop_last()[k] as int);
            }
        }
    }
}

/// Extending a canonical vector by one element inserts it into the set.
proof fn lemma_pos_set_take_step(s: Seq<usize>, i: int)
    requires
        0 <= i < s.len(),
    ensures
        pos_set(s.take(i + 1)) == pos_set(s.take(i)).insert(s[i] as int),
{
    assert(s.take(i + 1).drop_last() =~= s.take(i));
    assert(s.take(i + 1).last() == s[i]);
}

/// Copies a vector of positions.
fn copy_positions(src: &Vec<usize>) -> (r: Vec<usize>)
    ensures
        r@ == src@,
{
    let mut r: Vec<usize> = Vec::new();
    let n = src.len();
    let mut i: usize = 0;
    while i < n
        invariant
            n == src@.len(),
            i <= n,
            r@ == src@.take(i as int),
        decreases n - i,
    {
        let x = src[i];
        r.push(x);
        proof {
            assert(r@ =~= src@.take(i + 1 as int));
        }
        i = i + 1;
    }
    proof {
        assert(r@ =~= src@);
    }
    r
}

/// Merges two canonical position vectors into the canonical vector of
/// their union.
fn union_sorted(a: &Vec<usize>, b: &Vec<usize>) -> (r: Vec<usize>)
    requires
        sorted_strict(a@),
        sorted_strict(b@),
    ensures
        sorted_strict(r@),
        pos_set(r@) == pos_set(a@) + pos_set(b@),
{
    let an = a.len();
    let bn = b.len();
    let mut r: Vec<usize> = Vec::new();
    let mut i: usize = 0;
    let mut j: usize = 0;
    proof {
        assert(pos_set(r@) =~= pos_set(a@.take(0)) + pos_set(b@.take(0)));
    }
    while i < an || j < bn
        invariant
            an == a@.len(),
            bn == b@.len(),
            i <= an,
            j <= bn,
            sorted_strict(r@),
            pos_set(r@) == pos_set(a@.take(i as int)) + pos_set(b@.take(j as int)),
            forall|k: int|
                0 <= k < r@.len() ==> ((i < an ==> #[trigger] r@[k] < a@[i as int]) && (j < bn
                    ==> r@[k] < b@[j as int])),
        decreases an - i + bn - j,
    {
        let ghost r0 = r@;
        if i < an && (j >= bn || a[i] < b[j]) {
            let x = a[i];
            r.push(x);
            proof {
                assert(r@.drop_last() =~= r0);
                lemma_pos_set_take_step(a@, i as int);
                assert(pos_set(r@) =~= pos_set(a@.take(i + 1)) + pos_set(b@.take(j as int)));
            }
            i = i + 1;
        } else if j < bn && (i >= an || b[j] < a[i]) {
            let x = b[j];
            r.push(x);
            proof {
                assert(r@.drop_last() =~= r0);
                lemma_pos_set_take_step(b@, j as int);
                assert(pos_set(r@) =~= pos_set(a@.take(i as int)) + pos_set(b@.take(j + 1)));
            }
            j = j + 1;
        } else {
            let x = a[i];
            proof {
                assert(a@[i as int] == b@[j as int]);
            }
            r.push(x);
            proof {
                assert(r@.drop_last() =~= r0);
                lemma_pos_set_take_step(a@, i as int);
                lemma_pos_set_take_step(b@, j as int);
                assert(pos_set(r@) =~= pos_set(a@.take(i + 1)) + pos_set(b@.take(j + 1)));
            }
            i = i + 1;
            j = j + 1;
        }
    }
    proof {
        assert(a@.take(an as int) =~= a@);
        assert(b@.take(bn as int) =~= b@);
    }
    r
}

/// The compiler state: a well-formed syntax tree about to be turned
/// into tables and then a DFA.
pub struct DirectAFD {
    tree: TreeNode,
}

impl DirectAFD {
    /// The syntax tree this compilation works on.
    pub closed spec fn tree_spec(self) -> TreeNode {
        self.tree
    }

    /// Validity: the stored tree is well-shaped.
    pub open spec fn wf(self) -> bool {
        tree_wf(self.tree_spec())
    }

    /// The arena this compilation's tree flattens to.
    pub open spec fn arena_spec(self) -> Seq<ArenaNode> {
        arena_of(self.tree_spec(), 0)
    }

    /// Wraps a well-shaped syntax tree for DFA construction.
    pub fn new(tree: TreeNode) -> (d: DirectAFD)
        requires
            tree_wf(tree),
        ensures
            d.tree_spec() == tree,
            d.wf(),
    {
        DirectAFD { tree }
    }

    /// Flattens the syntax tree into its post-order arena and returns it
    /// with the root's index, which is always the last record.
    pub fn read_tree(&self) -> (r: (Vec<ArenaNode>, usize))
        requires
            self.wf(),
        ensures
            r.0@ == self.arena_spec(),
            arena_wf(r.0@),
            r.0@.len() > 0,
            r.1 == r.0@.len() - 1,
    {
        let mut arena: Vec<ArenaNode> = Vec::new();
        flatten(&self.tree, &mut arena);
        proof {
            assert(arena@ =~= self.arena_spec());
        }
        let root = arena.len() - 1;
        (arena, root)
    }
}

/// Every member of a firstpos set is a position of a leaf at or below
/// index `i`.
proof fn lemma_firstpos_bounds_one(a: Seq<ArenaNode>, i: int, p: int)
    requires
        firstpos_at(a, i).contains(p),
    ensures
        1 <= p <= pos_count(a, i + 1),
    decreases i,
{
    if 0 <= i < a.len() {
        let nd = a[i];
        if positioned(nd.value) {
            assert(set![pos_of(a, i)].contains(p));
            lemma_pos_count_le(a, i);
            assert(pos_count(a, i + 1) == pos_count(a, i) + 1);
        } else if nd.value is Union || nd.value is Concat {
            match (nd.left, nd.right) {
                (Some(l), Some(r)) => {
                    let fl = if l < i {
                        firstpos_at(a, l as int)
                    } else {
                        Set::<int>::empty()
                    };
                    let fr = if r < i {
                        firstpos_at(a, r as int)
                    } else {
                        Set::<int>::empty()
                    };
                    assert(fl.contains(p) || fr.contains(p));
                    if fl.contains(p) {
                        lemma_firstpos_bounds_one(a, l as int, p);
                        lemma_pos_count_mono(a, l + 1, i + 1);
                    } else {
                        lemma_firstpos_bounds_one(a, r as int, p);
                        lemma_pos_count_mono(a, r + 1, i + 1);
                    }
                },
                _ => {},
            }
        } else if nd.value is Kleene {
            match nd.left {
                Some(l) => {
                    lemma_firstpos_bounds_one(a, l as int, p);
                    lemma_pos_count_mono(a, l + 1, i + 1);
                },
                None => {},
            }
        }
    }
}

/// Every member of a firstpos set is a position of a leaf at or below
/// index `i`.
pub proof fn lemma_firstpos_bounds(a: Seq<ArenaNode>, i: int)
    ensures
        forall|p: int| firstpos_at(a, i).contains(p) ==> 1 <= p <= pos_count(a, i + 1),
{
    assert forall|p: int| firstpos_at(a, i).contains(p) implies 1 <= p <= pos_count(a, i + 1) by {
        lemma_firstpos_bounds_one(a, i, p);
    }
}

/// Every member of a lastpos set is a position of a leaf at or below
/// index `i`.
proof fn lemma_lastpos_bounds_one(a: Seq<ArenaNode>, i: int, p: int)
    requires
        lastpos_at(a, i).contains(p),
    ensures
        1 <= p <= pos_count(a, i + 1),
    decreases i,
{
    if 0 <= i < a.len() {
        let nd = a[i];
        if positioned(nd.value) {
            assert(set![pos_of(a, i)].contains(p));
            lemma_pos_count_le(a, i);
            assert(pos_count(a, i + 1) == pos_count(a, i) + 1);
        } else if nd.value is Union || nd.value is Concat {
            match (nd.left, nd.right) {
                (Some(l), Some(r)) => {
                    let ll = if l < i {
                        lastpos_at(a, l as int)
                    } else {
                        Set::<int>::empty()
                    };
                    let lr = if r < i {
                        lastpos_at(a, r as int)
                    } else {
                        Set::<int>::empty()
                    };
                    assert(ll.contains(p) || lr.contains(p));
                    if ll.contains(p) {
                        lemma_lastpos_bounds_one(a, l as int, p);
                        lemma_pos_count_mono(a, l + 1, i + 1);
                    } else {
                        lemma_lastpos_bounds_one(a, r as int, p);
                        lemma_pos_count_mono(a, r + 1, i + 1);
                    }
                },
                _ => {},
            }
        } else if nd.value is Kleene {
            match nd.left {
                Some(l) => {
                    lemma_lastpos_bounds_one(a, l as int, p);
                    lemma_pos_count_mono(a, l + 1, i + 1);
                },
                None => {},
            }
        }
    }
}

/// Every member of a lastpos set is a position of a leaf at or below
/// index `i`.
pub proof fn lemma_lastpos_bounds(a: Seq<ArenaNode>, i: int)
    ensures
        forall|p: int| lastpos_at(a, i).contains(p) ==> 1 <= p <= pos_count(a, i + 1),
{
    assert forall|p: int| lastpos_at(a, i).contains(p) implies 1 <= p <= pos_count(a, i + 1) by {
        lemma_lastpos_bounds_one(a, i, p);
    }
}

impl DirectAFD {
    /// Computes, for every arena record, whether its subtree accepts the
    /// empty word, in one bottom-up pass.
    pub fn find_nullable(&self) -> (r: Vec<bool>)
        requires
            self.wf(),
        ensures
            r@.len() == self.arena_spec().len(),
            forall|i: int|
                0 <= i < r@.len() ==> r@[i] == nullable_at(self.arena_spec(), i),
    {
        let (arena, _root) = self.read_tree();
        let n = arena.len();
        let mut out: Vec<bool> = Vec::new();
        let mut i: usize = 0;
        while i < n
            invariant
                arena@ == self.arena_spec(),
                arena_wf(arena@),
                n == arena@.len(),
                i <= n,
                out@.len() == i,
                forall|k: int| 0 <= k < i ==> out@[k] == nullable_at(arena@, k),
            decreases n - i,
        {
            proof {
                assert(node_wf(arena@[i as int], i as int));
            }
            let nd = &arena[i];
            let val = match nd.value {
                Token::Empty => true,
                Token::Kleene => true,
                Token::Union => match (nd.left, nd.right) {
                    (Some(l), Some(r)) => out[l] || out[r],
                    _ => false,
                },
                Token::Concat => match (nd.left, nd.right) {
                    (Some(l), Some(r)) => out[l] && out[r],
                    _ => false,
                },
                _ => false,
            };
            out.push(val);
            proof {
                assert(out@[i as int] == nullable_at(arena@, i as int));
            }
            i = i + 1;
        }
        out
    }

    /// Computes the firstpos and lastpos tables, one canonical position
    /// vector per arena record, in one bottom-up pass.
    pub fn find_first_last_pos(&self) -> (r: (Vec<Vec<usize>>, Vec<Vec<usize>>))
        requires
            self.wf(),
        ensures
            r.0@.len() == self.arena_spec().len(),
            r.1@.len() == self.arena_spec().len(),
            forall|i: int|
                0 <= i < r.0@.len() ==> sorted_strict(#[trigger] r.0@[i]@) && pos_set(r.0@[i]@)
                    == firstpos_at(self.arena_spec(), i),
            forall|i: int|
                0 <= i < r.1@.len() ==> sorted_strict(#[trigger] r.1@[i]@) && pos_set(r.1@[i]@)
                    == lastpos_at(self.arena_spec(), i),
    {
        let (arena, _root) = self.read_tree();
        let nulls = self.find_nullable();
        let n = arena.len();
        let mut fp: Vec<Vec<usize>> = Vec::new();
        let mut lp: Vec<Vec<usize>> = Vec::new();
        let mut rank: usize = 0;
        let mut i: usize = 0;
        while i < n
            invariant
                arena@ == self.arena_spec(),
                arena_wf(arena@),
                n == arena@.len(),
                nulls@.len() == n,
                forall|k: int| 0 <= k < n ==> nulls@[k] == nullable_at(arena@, k),
                i <= n,
                rank as int == pos_count(arena@, i as int),
                rank <= i,
                fp@.len() == i,
                lp@.len() == i,
                forall|k: int|
                    0 <= k < i ==> sorted_strict(#[trigger] fp@[k]@) && pos_set(fp@[k]@)
                        == firstpos_at(arena@, k),
                forall|k: int|
                    0 <= k < i ==> sorted_strict(#[trigger] lp@[k]@) && pos_set(lp@[k]@)
                        == lastpos_at(arena@, k),
            decreases n - i,
        {
            proof {
                assert(node_wf(arena@[i as int], i as int));
            }
            let nd = &arena[i];
            let fval: Vec<usize>;
            let lval: Vec<usize>;
            match nd.value {
                Token::Literal(_) | Token::Range(_, _) | Token::Sentinel => {
                    rank = rank + 1;
                    let mut v: Vec<usize> = Vec::new();
                    v.push(rank);
                    let w = copy_positions(&v);
                    proof {
                        assert(rank as int == pos_of(arena@, i as int));
                        assert(v@.drop_last() =~= Seq::<usize>::empty());
                        assert(pos_set(v@.drop_last()) == Set::<int>::empty());
                        assert(v@.last() == rank);
                        assert(pos_set(v@) == Set::<int>::empty().insert(pos_of(arena@, i as int)));
                        assert(pos_set(v@) =~= set![pos_of(arena@, i as int)]);
                    }
                    fval = v;
                    lval = w;
                },
                Token::Union => match (nd.left, nd.right) {
                    (Some(l), Some(r)) => {
                        fval = union_sorted(&fp[l], &fp[r]);
                        lval = union_sorted(&lp[l], &lp[r]);
                    },
                    _ => {
                        fval = Vec::new();
                        lval = Vec::new();
                    },
                },
                Token::Concat => match (nd.left, nd.right) {
                    (Some(l), Some(r)) => {
                        if nulls[l] {
                            fval = union_sorted(&fp[l], &fp[r]);
                        } else {
                            fval = copy_positions(&fp[l]);
                        }
                        if nulls[r] {
                            lval = union_sorted(&lp[l], &lp[r]);
                        } else {
                            lval = copy_positions(&lp[r]);
                        }
                    },
                    _ => {
                        fval = Vec::new();
                        lval = Vec::new();
                    },
                },
                Token::Kleene => match nd.left {
                    Some(l) => {
                        fval = copy_positions(&fp[l]);
                        lval = copy_positions(&lp[l]);
                    },
                    None => {
                        fval = Vec::new();
                        lval = Vec::new();
                    },
                },
                _ => {
                    fval = Vec::new();
                    lval = Vec::new();
                },
            }
            proof {
                assert(sorted_strict(fval@) && pos_set(fval@) == firstpos_at(arena@, i as int));
                assert(sorted_strict(lval@) && pos_set(lval@) == lastpos_at(arena@, i as int));
                assert(rank as int == pos_count(arena@, i + 1));
            }
            fp.push(fval);
            lp.push(lval);
            i = i + 1;
        }
        (fp, lp)
    }

    /// Computes the followpos table: the vector at index `p - 1` is the
    /// canonical followpos set of position `p`.
    pub fn find_followpos(&self) -> (r: Vec<Vec<usize>>)
        requires
            self.wf(),
        ensures
            r@.len() == self.arena_spec().len(),
            forall|p: int|
                1 <= p <= r@.len() ==> sorted_strict(#[trigger] r@[p - 1]@) && pos_set(r@[p - 1]@)
                    == spec_followpos(self.arena_spec(), p),
    {
        let (arena, _root) = self.read_tree();
        let (fp, lp) = self.find_first_last_pos();
        let n = arena.len();
        let mut follow: Vec<Vec<usize>> = Vec::new();
        let mut i: usize = 0;
        while i < n
            invariant
                i <= n,
                follow@.len() == i,
                forall|k: int| 0 <= k < i ==> #[trigger] follow@[k]@.len() == 0,
            decreases n - i,
        {
            let v: Vec<usize> = Vec::new();
            follow.push(v);
            i = i + 1;
        }
        proof {
            assert forall|q: int| 0 <= q < n implies pos_set(#[trigger] follow@[q]@)
                == followpos_upto(arena@, 0, q + 1) by {
                assert(follow@[q]@ =~= Seq::<usize>::empty());
            }
        }
        let mut i: usize = 0;
        while i < n
            invariant
                arena@ == self.arena_spec(),
                arena_wf(arena@),
                n == arena@.len(),
                fp@.len() == n,
                lp@.len() == n,
                forall|k: int|
                    0 <= k < n ==> sorted_strict(#[trigger] fp@[k]@) && pos_set(fp@[k]@)
                        == firstpos_at(arena@, k),
                forall|k: int|
                    0 <= k < n ==> sorted_strict(#[trigger] lp@[k]@) && pos_set(lp@[k]@)
                        == lastpos_at(arena@, k),
                i <= n,
                follow@.len() == n,
                forall|q: int|
                    0 <= q < n ==> sorted_strict(#[trigger] follow@[q]@) && pos_set(follow@[q]@)
                        == followpos_upto(arena@, i as int, q + 1),
            decreases n - i,
        {
            proof {
                assert(node_wf(arena@[i as int], i as int));
            }
            let nd = &arena[i];
            let ghost follow0 = follow@;
            match nd.value {
                Token::Concat => match (nd.left, nd.right) {
                    (Some(l), Some(r)) => {
                        proof {
                            lemma_lastpos_bounds(arena@, l as int);
                            lemma_pos_count_le(arena@, l + 1);
                        }
                        distribute_follow(&mut follow, &lp[l], &fp[r]);
                    },
                    _ => {},
                },
                Token::Kleene => match nd.left {
                    Some(l) => {
                        proof {
                            lemma_lastpos_bounds(arena@, l as int);
                            lemma_pos_count_le(arena@, l + 1);
                        }
                        distribute_follow(&mut follow, &lp[l], &fp[l]);
                    },
                    None => {},
                },
                _ => {},
            }
            proof {
                assert forall|q: int| 0 <= q < n implies sorted_strict(#[trigger] follow@[q]@)
                    && pos_set(follow@[q]@) == followpos_upto(arena@, i + 1, q + 1) by {
                    let p = q + 1;
                    assert(followpos_upto(arena@, i + 1, p) == followpos_upto(arena@, i as int, p)
                        + follow_contrib(arena@, i as int, p));
                    assert(pos_set(follow0[q]@) == followpos_upto(arena@, i as int, p));
                    let nd0 = arena@[i as int];
                    if nd0.value is Concat {
                        let l = nd0.left.unwrap();
                        let r = nd0.right.unwrap();
                        assert(pos_set(lp@[l as int]@) == lastpos_at(arena@, l as int));
                        assert(pos_set(fp@[r as int]@) == firstpos_at(arena@, r as int));
                    } else if nd0.value is Kleene {
                        let l = nd0.left.unwrap();
                        assert(pos_set(lp@[l as int]@) == lastpos_at(arena@, l as int));
                        assert(pos_set(fp@[l as int]@) == firstpos_at(arena@, l as int));
                    } else {
                        assert(follow@ == follow0);
                        assert(follow_contrib(arena@, i as int, p) =~= Set::<int>::empty());
                        assert(pos_set(follow@[q]@) + Set::<int>::empty() =~= pos_set(
                            follow@[q]@,
                        ));
                    }
                }
            }
            i = i + 1;
        }
        proof {
            assert forall|p: int|
                1 <= p <= follow@.len() implies sorted_strict(#[trigger] follow@[p - 1]@)
                && pos_set(follow@[p - 1]@) == spec_followpos(self.arena_spec(), p) by {
                assert(sorted_strict(follow@[p - 1]@) && pos_set(follow@[p - 1]@)
                    == followpos_upto(arena@, n as int, (p - 1) + 1));
            }
        }
        follow
    }
}

/// For every position in `lvec`, merges `fvec` into that position's
/// followpos vector.
fn distribute_follow(follow: &mut Vec<Vec<usize>>, lvec: &Vec<usize>, fvec: &Vec<usize>)
    requires
        sorted_strict(lvec@),
        sorted_strict(fvec@),
        forall|p: int| pos_set(lvec@).contains(p) ==> 1 <= p <= old(follow)@.len(),
        forall|q: int| 0 <= q < old(follow)@.len() ==> sorted_strict(#[trigger] old(follow)@[q]@),
    ensures
        final(follow)@.len() == old(follow)@.len(),
        forall|q: int|
            0 <= q < final(follow)@.len() ==> sorted_strict(#[trigger] final(follow)@[q]@)
                && pos_set(final(follow)@[q]@) == pos_set(old(follow)@[q]@) + (if pos_set(
                lvec@,
            ).contains(q + 1) {
                pos_set(fvec@)
            } else {
                Set::empty()
            }),
{
    let m = lvec.len();
    let mut k: usize = 0;
    while k < m
        invariant
            m == lvec@.len(),
            k <= m,
            follow@.len() == old(follow)@.len(),
            forall|q: int|
                0 <= q < follow@.len() ==> sorted_strict(#[trigger] follow@[q]@) && pos_set(
                    follow@[q]@,
                ) == pos_set(old(follow)@[q]@) + (if pos_set(lvec@.take(k as int)).contains(q + 1) {
                    pos_set(fvec@)
                } else {
                    Set::empty()
                }),
        decreases m - k,
    {
        let p0 = lvec[k];
        proof {
            lemma_pos_set_iff(lvec@, p0 as int);
            assert(pos_set(lvec@).contains(p0 as int));
        }
        let idx = p0 - 1;
        let merged = union_sorted(&follow[idx], fvec);
        follow.set(idx, merged);
        proof {
            lemma_pos_set_take_step(lvec@, k as int);
            assert forall|q: int| 0 <= q < follow@.len() implies sorted_strict(
                #[trigger] follow@[q]@,
            ) && pos_set(follow@[q]@) == pos_set(old(follow)@[q]@) + (if pos_set(
                lvec@.take(k + 1),
            ).contains(q + 1) {
                pos_set(fvec@)
            } else {
                Set::empty()
            }) by {
                if q == idx as int {
                    // This position was not seen earlier: the vector is
                    // strictly sorted, so earlier entries are smaller.
                    assert(!pos_set(lvec@.take(k as int)).contains(q + 1)) by {
                        lemma_pos_set_iff(lvec@.take(k as int), q + 1);
                        if pos_set(lvec@.take(k as int)).contains(q + 1) {
                            let w = choose|w: int|
                                0 <= w < lvec@.take(k as int).len() && q + 1 == lvec@.take(
                                    k as int,
                                )[w] as int;
                            assert(lvec@[w] < lvec@[k as int]);
                        }
                    }
                    assert(pos_set(follow@[q]@) =~= pos_set(old(follow)@[q]@) + pos_set(fvec@));
                }
            }
        }
        k = k + 1;
    }
    proof {
        assert(lvec@.take(m as int) =~= lvec@);
    }
}

/// Appends the post-order flattening of `t` to the arena.
fn flatten(t: &TreeNode, arena: &mut Vec<ArenaNode>)
    requires
        tree_wf(*t),
        arena_wf(old(arena)@),
    ensures
        final(arena)@ == old(arena)@ + arena_of(*t, old(arena)@.len() as int),
        arena_wf(final(arena)@),
        final(arena)@.len() > old(arena)@.len(),
    decreases *t,
{
    let ghost base = arena@.len() as int;
    match &t.left {
        Some(b) => flatten(b, arena),
        None => {},
    }
    let li: Option<usize> = match &t.left {
        Some(_) => Some(arena.len() - 1),
        None => None,
    };
    match &t.right {
        Some(b) => flatten(b, arena),
        None => {},
    }
    let ri: Option<usize> = match &t.right {
        Some(_) => Some(arena.len() - 1),
        None => None,
    };
    let ghost me = arena@.len() as int;
    let nd = ArenaNode { value: t.value, left: li, right: ri };
    proof {
        assert(node_wf(nd, me));
    }
    arena.push(nd);
    proof {
        assert(arena@ =~= old(arena)@ + arena_of(*t, base));
        assert forall|i: int| 0 <= i < arena@.len() implies node_wf(#[trigger] arena@[i], i) by {
            if i < me {
                assert(node_wf(arena@[i], i));
            } else {
                assert(arena@[i] == nd);
            }
        }
    }
}

} // verus!

// === The DFA: edge symbols, tables, and their discipline. ===

use vstd::prelude::*;

verus! {

/// An edge symbol of the automaton: a single literal character or an
/// inclusive character range, both stored as Unicode code points.
#[derive(Debug, Clone, Copy, PartialEq, Eq, Structural)]
pub enum Sym {
    Lit(u32),
    Range(u32, u32),
}

/// A total injective key ordering edge symbols: literals first by code
/// point, then ranges by their bounds.
pub open spec fn sym_key(s: Sym) -> int {
    match s {
        Sym::Lit(c) => c as int,
        Sym::Range(a, b) => 0x1_0000_0000_0000_0000 + (a as int) * 0x1_0000_0000 + (b as int),
    }
}

/// Whether the symbol matches the input code point `cp`.
pub open spec fn sym_covers(s: Sym, cp: int) -> bool {
    match s {
        Sym::Lit(c) => c as int == cp,
        Sym::Range(a, b) => a as int <= cp <= b as int,
    }
}

/// Whether two range symbols share no code point; vacuous for literals.
pub open spec fn ranges_disjoint(x: Sym, y: Sym) -> bool {
    match (x, y) {
        (Sym::Range(a1, b1), Sym::Range(a2, b2)) => (b1 as int) < a2 as int || (b2 as int) < (
        a1 as int),
        _ => true,
    }
}

/// Discipline of one transition row over an automaton with `n` states:
/// targets in range, symbols strictly ordered by key (hence distinct),
/// and ranges pairwise disjoint, so that for any input code point at
/// most one literal and at most one range edge can match.
pub open spec fn row_wf(row: Seq<(Sym, usize)>, n: int) -> bool {
    (forall|k: int| 0 <= k < row.len() ==> (#[trigger] row[k]).1 < n) && (forall|k1: int, k2: int|
        0 <= k1 < k2 < row.len() ==> sym_key(row[k1].0) < sym_key(row[k2].0)) && (forall|
        k1: int,
        k2: int,
    |
        0 <= k1 < row.len() && 0 <= k2 < row.len() && k1 != k2 ==> ranges_disjoint(
            (#[trigger] row[k1]).0,
            (#[trigger] row[k2]).0,
        ))
}

/// A deterministic finite automaton: one transition row and one accept
/// tag slot per state. State `start` is the scanner's entry point.
#[derive(Debug, PartialEq, Eq)]
pub struct Dfa {
    pub transitions: Vec<Vec<(Sym, usize)>>,
    pub accept: Vec<Option<usize>>,
    pub start: usize,
}

impl Dfa {
    /// Number of states.
    pub open spec fn n(self) -> int {
        self.transitions@.len() as int
    }

    /// Validity of the tables.
    pub open spec fn wf(self) -> bool {
        self.accept@.len() == self.n() && 0 <= self.start < self.n() && forall|s: int|
            0 <= s < self.n() ==> row_wf(#[trigger] self.transitions@[s]@, self.n())
    }
}

/// The first literal edge of `row` at index `k` or later that matches
/// code point `cp`.
pub open spec fn row_find_lit(row: Seq<(Sym, usize)>, k: int, cp: int) -> Option<usize>
    decreases row.len() - k,
{
    if k < 0 || k >= row.len() {
        None
    } else if row[k].0 is Lit && sym_covers(row[k].0, cp) {
        Some(row[k].1)
    } else {
        row_find_lit(row, k + 1, cp)
    }
}

/// The first range edge of `row` at index `k` or later that covers
/// code point `cp`.
pub open spec fn row_find_range(row: Seq<(Sym, usize)>, k: int, cp: int) -> Option<usize>
    decreases row.len() - k,
{
    if k < 0 || k >= row.len() {
        None
    } else if row[k].0 is Range && sym_covers(row[k].0, cp) {
        Some(row[k].1)
    } else {
        row_find_range(row, k + 1, cp)
    }
}

/// The scanner's transition choice on one row: the literal edge equal to
/// the input wins; otherwise the covering range edge fires.
pub open spec fn row_step(row: Seq<(Sym, usize)>, cp: int) -> Option<usize> {
    match row_find_lit(row, 0, cp) {
        Some(t) => Some(t),
        None => row_find_range(row, 0, cp),
    }
}

/// The automaton's step function from state `s` on code point `cp`.
pub open spec fn dfa_step(d: Dfa, s: int, cp: int) -> Option<int> {
    if 0 <= s < d.n() {
        match row_step(d.transitions@[s]@, cp) {
            Some(t) => Some(t as int),
            None => None,
        }
    } else {
        None
    }
}

// === Position symbols and the subset-construction step relation. ===

/// The edge symbol a position matches: the literal or range stored at
/// the leaf carrying that position; the sentinel leaf carries no input
/// symbol, and neither does a value that is no position.
pub open spec fn pos_symbol(a: Seq<ArenaNode>, p: int) -> Option<Sym> {
    let i = idx_of_pos(a, p, 0);
    if i >= 0 {
        match a[i].value {
            Token::Literal(c) => Some(Sym::Lit(c as u32)),
            Token::Range(x, y) => Some(Sym::Range(x as u32, y as u32)),
            _ => None,
        }
    } else {
        None
    }
}

/// Whether position `p` matches input code point `cp`.
pub open spec fn pos_covers(a: Seq<ArenaNode>, p: int, cp: int) -> bool {
    match pos_symbol(a, p) {
        Some(s) => sym_covers(s, cp),
        None => false,
    }
}

/// The subset-construction step: from position set `ss` on input `cp`,
/// the union of followpos over all positions that match `cp`.
pub open spec fn delta_set(a: Seq<ArenaNode>, ss: Set<int>, cp: int) -> Set<int> {
    Set::new(
        |q: int|
            exists|p: int|
                #[trigger] ss.contains(p) && pos_covers(a, p, cp) && spec_followpos(
                    a,
                    p,
                ).contains(q),
    )
}

/// The union of followpos over positions of `ss` whose symbol is
/// exactly the range `s`; what a range edge carries.
pub open spec fn delta_exact(a: Seq<ArenaNode>, ss: Set<int>, s: Sym) -> Set<int> {
    Set::new(
        |q: int|
            exists|p: int|
                #[trigger] ss.contains(p) && pos_symbol(a, p) == Some(s) && spec_followpos(
                    a,
                    p,
                ).contains(q),
    )
}

/// Whether position `p` is carried by a sentinel leaf.
pub open spec fn sentinel_at(a: Seq<ArenaNode>, p: int) -> bool {
    let i = idx_of_pos(a, p, 0);
    i >= 0 && a[i].value is Sentinel
}

/// How many sentinel positions are at most `p`: the 1-based rule tag of
/// the `p`-th sentinel.
pub open spec fn sent_count_upto(a: Seq<ArenaNode>, p: int) -> int
    decreases p,
{
    if p <= 0 {
        0
    } else {
        sent_count_upto(a, p - 1) + if sentinel_at(a, p) {
            1int
        } else {
            0int
        }
    }
}

/// The accept tag of a canonical position vector: the rule tag of its
/// smallest sentinel position, if any.
pub open spec fn accept_tag(a: Seq<ArenaNode>, sv: Seq<usize>, k: int) -> Option<int>
    decreases sv.len() - k,
{
    if k < 0 || k >= sv.len() {
        None
    } else if sentinel_at(a, sv[k] as int) {
        Some(sent_count_upto(a, sv[k] as int))
    } else {
        accept_tag(a, sv, k + 1)
    }
}

// === Termination of the subset construction: distinct canonical
// position vectors over 1..=n are at most pow2(n + 1) many. ===

/// The characteristic number of a position vector: the sum of powers of
/// two of its members.
pub open spec fn mask_of(s: Seq<usize>) -> int
    decreases s.len(),
{
    if s.len() == 0 {
        0
    } else {
        mask_of(s.drop_last()) + pow2(s.last() as nat)
    }
}

proof fn lemma_mask_bound(s: Seq<usize>, m: int)
    requires
        sorted_strict(s),
        forall|k: int| 0 <= k < s.len() ==> s[k] <= m,
        0 <= m,
    ensures
        0 <= mask_of(s) < pow2((m + 1) as nat),
    decreases s.len(),
{
    lemma_pow2_pos((m + 1) as nat);
    if s.len() > 0 {
        let last = s.last();
        assert(forall|k: int| 0 <= k < s.drop_last().len() ==> s.drop_last()[k] < last);
        if last == 0 {
            assert(s.drop_last().len() == 0) by {
                if s.drop_last().len() > 0 {
                    assert(s.drop_last()[0] < 0usize);
                }
            }
            assert(mask_of(s.drop_last()) == 0);
            lemma2_to64();
            lemma_pow2_strictly_increases(0, (m + 1) as nat);
        } else {
            lemma_mask_bound(s.drop_last(), last - 1);
            assert(mask_of(s.drop_last()) < pow2(last as nat));
            lemma_pow2_adds(last as nat, 1);
            lemma2_to64();
            assert(mask_of(s) < pow2((last + 1) as nat));
            if last < m {
                lemma_pow2_strictly_increases((last + 1) as nat, (m + 1) as nat);
            }
        }
    }
}

/// A nonempty canonical vector's mask lies between the power of two of
/// its largest member and the next power.
proof fn lemma_mask_low(s: Seq<usize>)
    requires
        sorted_strict(s),
    ensures
        0 <= mask_of(s),
        s.len() > 0 ==> pow2(s.last() as nat) <= mask_of(s) < pow2((s.last() + 1) as nat),
    decreases s.len(),
{
    if s.len() > 0 {
        let last = s.last();
        assert(forall|k: int| 0 <= k < s.drop_last().len() ==> s.drop_last()[k] < last);
        lemma_mask_low(s.drop_last());
        if last == 0 {
            assert(s.drop_last().len() == 0) by {
                if s.drop_last().len() > 0 {
                    assert(s.drop_last()[0] < 0usize);
                }
            }
            assert(mask_of(s.drop_last()) == 0);
            lemma2_to64();
        } else {
            lemma_mask_bound(s.drop_last(), last - 1);
            lemma_pow2_adds(last as nat, 1);
            lemma2_to64();
        }
    }
}

proof fn lemma_mask_injective(s1: Seq<usize>, s2: Seq<usize>)
    requires
        sorted_strict(s1),
        sorted_strict(s2),
        mask_of(s1) == mask_of(s2),
    ensures
        s1 == s2,
    decreases s1.len() + s2.len(),
{
    lemma_mask_low(s1);
    lemma_mask_low(s2);
    if s1.len() == 0 && s2.len() == 0 {
        assert(s1 =~= s2);
    } else if s1.len() == 0 {
        lemma_pow2_pos(s2.last() as nat);
        assert(false);
    } else if s2.len() == 0 {
        lemma_pow2_pos(s1.last() as nat);
        assert(false);
    } else {
        let l1 = s1.last();
        let l2 = s2.last();
        if l1 < l2 {
            assert(pow2((l1 + 1) as nat) <= pow2(l2 as nat)) by {
                if l1 + 1 < l2 {
                    lemma_pow2_strictly_increases((l1 + 1) as nat, l2 as nat);
                }
            }
            assert(false);
        } else if l2 < l1 {
            assert(pow2((l2 + 1) as nat) <= pow2(l1 as nat)) by {
                if l2 + 1 < l1 {
                    lemma_pow2_strictly_increases((l2 + 1) as nat, l1 as nat);
                }
            }
            assert(false);
        } else {
            assert(forall|k: int| 0 <= k < s1.drop_last().len() ==> s1.drop_last()[k] < l1);
            assert(forall|k: int| 0 <= k < s2.drop_last().len() ==> s2.drop_last()[k] < l2);
            lemma_mask_injective(s1.drop_last(), s2.drop_last());
            assert(s1 =~= s1.drop_last().push(l1));
            assert(s2 =~= s2.drop_last().push(l2));
        }
    }
}

/// All states' canonical vectors: sorted, in range, pairwise distinct.
pub open spec fn states_ok(a: Seq<ArenaNode>, states: Seq<Vec<usize>>) -> bool {
    (forall|k: int|
        0 <= k < states.len() ==> sorted_strict(#[trigger] states[k]@) && (forall|j: int|
            0 <= j < states[k]@.len() ==> 1 <= #[trigger] states[k]@[j] <= a.len())) && (forall|
        k1: int,
        k2: int,
    | 0 <= k1 < k2 < states.len() ==> (#[trigger] states[k1]@) != (#[trigger] states[k2]@))
}

proof fn lemma_states_capacity(a: Seq<ArenaNode>, states: Seq<Vec<usize>>)
    requires
        states_ok(a, states),
    ensures
        states.len() <= pow2((a.len() + 1) as nat),
{
    let masks = Seq::new(states.len(), |k: int| mask_of(states[k]@));
    assert(masks.no_duplicates()) by {
        assert forall|k1: int, k2: int|
            0 <= k1 < masks.len() && 0 <= k2 < masks.len() && k1 != k2 implies masks[k1]
            != masks[k2] by {
            if masks[k1] == masks[k2] {
                lemma_mask_injective(states[k1]@, states[k2]@);
            }
        }
    }
    masks.unique_seq_to_set();
    let bound = pow2((a.len() + 1) as nat) as int;
    let range = set_int_range(0, bound);
    lemma_int_range(0, bound);
    assert(masks.to_set().subset_of(range)) by {
        assert forall|m: int| masks.to_set().contains(m) implies range.contains(m) by {
            let k = choose|k: int| 0 <= k < masks.len() && masks[k] == m;
            lemma_mask_bound(states[k]@, a.len() as int);
        }
    }
    lemma_len_subset(masks.to_set(), range);
}

} // verus!

// === Characterizations used by the subset construction. ===

verus! {

/// Two distinct positions carry distinct range symbols that share a
/// code point.
pub open spec fn overlapping_ranges_at(a: Seq<ArenaNode>, p1: int, p2: int) -> bool {
    p1 != p2 && match (pos_symbol(a, p1), pos_symbol(a, p2)) {
        (Some(r1), Some(r2)) => r1 is Range && r2 is Range && r1 != r2 && !ranges_disjoint(
            r1,
            r2,
        ),
        _ => false,
    }
}

/// Two positions of the set carry distinct overlapping range symbols.
pub open spec fn state_has_overlap(a: Seq<ArenaNode>, ss: Set<int>) -> bool {
    exists|p1: int, p2: int|
        ss.contains(p1) && ss.contains(p2) && #[trigger] overlapping_ranges_at(a, p1, p2)
}

/// One construction step from a state set: what one collected edge
/// symbol reaches — a code point's step, or a range symbol's exact
/// step.
pub open spec fn construction_step(a: Seq<ArenaNode>, ss: Set<int>, ss2: Set<int>) -> bool {
    (exists|cp: int| ss2 == #[trigger] delta_set(a, ss, cp)) || (exists|x: u32, y: u32|
        ss2 == #[trigger] delta_exact(a, ss, Sym::Range(x, y)))
}

/// A chain of nonempty construction steps from the root's firstpos set.
pub open spec fn sets_chain(a: Seq<ArenaNode>, chain: Seq<Set<int>>) -> bool {
    chain.len() > 0 && chain[0] == firstpos_at(a, a.len() - 1) && forall|i: int|
        0 <= i < chain.len() - 1 ==> #[trigger] construction_step(a, chain[i], chain[i + 1])
            && chain[i + 1] != Set::<int>::empty()
}

/// The state set can be reached from the start set by construction
/// steps.
pub open spec fn set_reachable(a: Seq<ArenaNode>, ss: Set<int>) -> bool {
    exists|chain: Seq<Set<int>>| #[trigger] sets_chain(a, chain) && chain.last() == ss
}

/// Some reachable state set holds two distinct overlapping ranges.
pub open spec fn reachable_overlap(a: Seq<ArenaNode>) -> bool {
    exists|ss: Set<int>| #[trigger] set_reachable(a, ss) && state_has_overlap(a, ss)
}

/// The start set is reachable.
pub proof fn lemma_start_reachable(a: Seq<ArenaNode>)
    ensures
        set_reachable(a, firstpos_at(a, a.len() - 1)),
{
    let chain = seq![firstpos_at(a, a.len() - 1)];
    assert(sets_chain(a, chain));
    assert(chain.last() == firstpos_at(a, a.len() - 1));
}

/// A nonempty construction step out of a reachable set reaches.
pub proof fn lemma_reachable_step(a: Seq<ArenaNode>, ss: Set<int>, ss2: Set<int>)
    requires
        set_reachable(a, ss),
        construction_step(a, ss, ss2),
        ss2 != Set::<int>::empty(),
    ensures
        set_reachable(a, ss2),
{
    let chain = choose|chain: Seq<Set<int>>| #[trigger] sets_chain(a, chain) && chain.last() == ss;
    let c2 = chain.push(ss2);
    assert forall|i: int| 0 <= i < c2.len() - 1 implies #[trigger] construction_step(
        a,
        c2[i],
        c2[i + 1],
    ) && c2[i + 1] != Set::<int>::empty() by {
        if i < chain.len() - 1 {
            assert(c2[i] == chain[i] && c2[i + 1] == chain[i + 1]);
            assert(construction_step(a, chain[i], chain[i + 1]) && chain[i + 1]
                != Set::<int>::empty());
        } else {
            assert(c2[i] == chain.last() && c2[i + 1] == ss2);
        }
    }
    assert(sets_chain(a, c2));
    assert(c2.last() == ss2);
}

/// The symbols carried by the positions of a set.
pub open spec fn sym_set(a: Seq<ArenaNode>, ss: Set<int>) -> Set<Sym> {
    Set::new(|s: Sym| exists|p: int| #[trigger] ss.contains(p) && pos_symbol(a, p) == Some(s))
}

/// The union of followpos over the first `k` members of `sv` that
/// match code point `cp`.
pub open spec fn delta_vec_upto(a: Seq<ArenaNode>, sv: Seq<usize>, k: int, cp: int) -> Set<int>
    decreases k,
{
    if k <= 0 {
        Set::empty()
    } else {
        delta_vec_upto(a, sv, k - 1, cp) + (if 0 <= k - 1 < sv.len() && pos_covers(
            a,
            sv[k - 1] as int,
            cp,
        ) {
            spec_followpos(a, sv[k - 1] as int)
        } else {
            Set::empty()
        })
    }
}

proof fn lemma_delta_vec_upto_iff(a: Seq<ArenaNode>, sv: Seq<usize>, k: int, cp: int, q: int)
    ensures
        delta_vec_upto(a, sv, k, cp).contains(q) <==> exists|j: int|
            0 <= j < k && j < sv.len() && pos_covers(a, #[trigger] sv[j] as int, cp)
                && spec_followpos(a, sv[j] as int).contains(q),
    decreases k,
{
    if k > 0 {
        lemma_delta_vec_upto_iff(a, sv, k - 1, cp, q);
        if delta_vec_upto(a, sv, k, cp).contains(q) {
            if delta_vec_upto(a, sv, k - 1, cp).contains(q) {
                let j = choose|j: int|
                    0 <= j < k - 1 && j < sv.len() && pos_covers(a, #[trigger] sv[j] as int, cp)
                        && spec_followpos(a, sv[j] as int).contains(q);
                assert(pos_covers(a, sv[j] as int, cp) && spec_followpos(a, sv[j] as int).contains(
                    q,
                ));
            } else {
                assert(pos_covers(a, sv[k - 1] as int, cp) && spec_followpos(
                    a,
                    sv[k - 1] as int,
                ).contains(q));
            }
        }
        if exists|j: int|
            0 <= j < k && j < sv.len() && pos_covers(a, #[trigger] sv[j] as int, cp)
                && spec_followpos(a, sv[j] as int).contains(q) {
            let j = choose|j: int|
                0 <= j < k && j < sv.len() && pos_covers(a, #[trigger] sv[j] as int, cp)
                    && spec_followpos(a, sv[j] as int).contains(q);
            if j < k - 1 {
                assert(delta_vec_upto(a, sv, k - 1, cp).contains(q));
            } else {
                assert(delta_vec_upto(a, sv, k, cp).contains(q));
            }
        }
    }
}

proof fn lemma_delta_vec_full(a: Seq<ArenaNode>, sv: Seq<usize>, cp: int)
    ensures
        delta_vec_upto(a, sv, sv.len() as int, cp) == delta_set(a, pos_set(sv), cp),
{
    let lhs = delta_vec_upto(a, sv, sv.len() as int, cp);
    let rhs = delta_set(a, pos_set(sv), cp);
    assert forall|q: int| lhs.contains(q) implies rhs.contains(q) by {
        lemma_delta_vec_upto_iff(a, sv, sv.len() as int, cp, q);
        let j = choose|j: int|
            0 <= j < sv.len() && pos_covers(a, #[trigger] sv[j] as int, cp) && spec_followpos(
                a,
                sv[j] as int,
            ).contains(q);
        lemma_pos_set_iff(sv, sv[j] as int);
        assert(pos_set(sv).contains(sv[j] as int));
    }
    assert forall|q: int| rhs.contains(q) implies lhs.contains(q) by {
        let p = choose|p: int|
            #[trigger] pos_set(sv).contains(p) && pos_covers(a, p, cp) && spec_followpos(
                a,
                p,
            ).contains(q);
        lemma_pos_set_iff(sv, p);
        let j = choose|j: int| 0 <= j < sv.len() && p == sv[j] as int;
        lemma_delta_vec_upto_iff(a, sv, sv.len() as int, cp, q);
        assert(pos_covers(a, sv[j] as int, cp) && spec_followpos(a, sv[j] as int).contains(q));
    }
    assert(lhs =~= rhs);
}

/// The union of followpos over the first `k` members of `sv` whose
/// symbol is exactly `s`.
pub open spec fn dexact_vec_upto(a: Seq<ArenaNode>, sv: Seq<usize>, k: int, s: Sym) -> Set<int>
    decreases k,
{
    if k <= 0 {
        Set::empty()
    } else {
        dexact_vec_upto(a, sv, k - 1, s) + (if 0 <= k - 1 < sv.len() && pos_symbol(
            a,
            sv[k - 1] as int,
        ) == Some(s) {
            spec_followpos(a, sv[k - 1] as int)
        } else {
            Set::empty()
        })
    }
}

proof fn lemma_dexact_vec_upto_iff(a: Seq<ArenaNode>, sv: Seq<usize>, k: int, s: Sym, q: int)
    ensures
        dexact_vec_upto(a, sv, k, s).contains(q) <==> exists|j: int|
            0 <= j < k && j < sv.len() && pos_symbol(a, #[trigger] sv[j] as int) == Some(s)
                && spec_followpos(a, sv[j] as int).contains(q),
    decreases k,
{
    if k > 0 {
        lemma_dexact_vec_upto_iff(a, sv, k - 1, s, q);
        if dexact_vec_upto(a, sv, k, s).contains(q) {
            if dexact_vec_upto(a, sv, k - 1, s).contains(q) {
                let j = choose|j: int|
                    0 <= j < k - 1 && j < sv.len() && pos_symbol(a, #[trigger] sv[j] as int)
                        == Some(s) && spec_followpos(a, sv[j] as int).contains(q);
                assert(pos_symbol(a, sv[j] as int) == Some(s) && spec_followpos(
                    a,
                    sv[j] as int,
                ).contains(q));
            } else {
                assert(pos_symbol(a, sv[k - 1] as int) == Some(s) && spec_followpos(
                    a,
                    sv[k - 1] as int,
                ).contains(q));
            }
        }
        if exists|j: int|
            0 <= j < k && j < sv.len() && pos_symbol(a, #[trigger] sv[j] as int) == Some(s)
                && spec_followpos(a, sv[j] as int).contains(q) {
            let j = choose|j: int|
                0 <= j < k && j < sv.len() && pos_symbol(a, #[trigger] sv[j] as int) == Some(s)
                    && spec_followpos(a, sv[j] as int).contains(q);
            if j < k - 1 {
                assert(dexact_vec_upto(a, sv, k - 1, s).contains(q));
            } else {
                assert(dexact_vec_upto(a, sv, k, s).contains(q));
            }
        }
    }
}

proof fn lemma_dexact_vec_full(a: Seq<ArenaNode>, sv: Seq<usize>, s: Sym)
    ensures
        dexact_vec_upto(a, sv, sv.len() as int, s) == delta_exact(a, pos_set(sv), s),
{
    let lhs = dexact_vec_upto(a, sv, sv.len() as int, s);
    let rhs = delta_exact(a, pos_set(sv), s);
    assert forall|q: int| lhs.contains(q) implies rhs.contains(q) by {
        lemma_dexact_vec_upto_iff(a, sv, sv.len() as int, s, q);
        let j = choose|j: int|
            0 <= j < sv.len() && pos_symbol(a, #[trigger] sv[j] as int) == Some(s)
                && spec_followpos(a, sv[j] as int).contains(q);
        lemma_pos_set_iff(sv, sv[j] as int);
        assert(pos_set(sv).contains(sv[j] as int));
    }
    assert forall|q: int| rhs.contains(q) implies lhs.contains(q) by {
        let p = choose|p: int|
            #[trigger] pos_set(sv).contains(p) && pos_symbol(a, p) == Some(s) && spec_followpos(
                a,
                p,
            ).contains(q);
        lemma_pos_set_iff(sv, p);
        let j = choose|j: int| 0 <= j < sv.len() && p == sv[j] as int;
        lemma_dexact_vec_upto_iff(a, sv, sv.len() as int, s, q);
        assert(pos_symbol(a, sv[j] as int) == Some(s) && spec_followpos(a, sv[j] as int).contains(
            q,
        ));
    }
    assert(lhs =~= rhs);
}

/// The first matching literal edge exists exactly when some literal
/// edge covers the code point; likewise for range edges.
pub(crate) proof fn lemma_row_find_lit_iff(row: Seq<(Sym, usize)>, k: int, cp: int)
    requires
        0 <= k,
    ensures
        row_find_lit(row, k, cp) is Some <==> exists|j: int|
            k <= j < row.len() && (#[trigger] row[j]).0 is Lit && sym_covers(row[j].0, cp),
        row_find_lit(row, k, cp) matches Some(t) ==> exists|j: int|
            k <= j < row.len() && (#[trigger] row[j]).0 is Lit && sym_covers(row[j].0, cp)
                && row[j].1 == t,
    decreases row.len() - k,
{
    if 0 <= k < row.len() {
        lemma_row_find_lit_iff(row, k + 1, cp);
        if row[k].0 is Lit && sym_covers(row[k].0, cp) {
            assert(row_find_lit(row, k, cp) == Some(row[k].1));
            assert((#[trigger] row[k]).0 is Lit && sym_covers(row[k].0, cp));
        } else {
            assert(row_find_lit(row, k, cp) == row_find_lit(row, k + 1, cp));
            if exists|j: int|
                k <= j < row.len() && (#[trigger] row[j]).0 is Lit && sym_covers(row[j].0, cp) {
                let j = choose|j: int|
                    k <= j < row.len() && (#[trigger] row[j]).0 is Lit && sym_covers(
                        row[j].0,
                        cp,
                    );
                assert(j != k);
                assert(k + 1 <= j < row.len() && (#[trigger] row[j]).0 is Lit && sym_covers(
                    row[j].0,
                    cp,
                ));
            }
        }
    }
}

pub(crate) proof fn lemma_row_find_range_iff(row: Seq<(Sym, usize)>, k: int, cp: int)
    requires
        0 <= k,
    ensures
        row_find_range(row, k, cp) is Some <==> exists|j: int|
            k <= j < row.len() && (#[trigger] row[j]).0 is Range && sym_covers(row[j].0, cp),
        row_find_range(row, k, cp) matches Some(t) ==> exists|j: int|
            k <= j < row.len() && (#[trigger] row[j]).0 is Range && sym_covers(row[j].0, cp)
                && row[j].1 == t,
    decreases row.len() - k,
{
    if 0 <= k < row.len() {
        lemma_row_find_range_iff(row, k + 1, cp);
        if row[k].0 is Range && sym_covers(row[k].0, cp) {
            assert(row_find_range(row, k, cp) == Some(row[k].1));
            assert((#[trigger] row[k]).0 is Range && sym_covers(row[k].0, cp));
        } else {
            assert(row_find_range(row, k, cp) == row_find_range(row, k + 1, cp));
            if exists|j: int|
                k <= j < row.len() && (#[trigger] row[j]).0 is Range && sym_covers(row[j].0, cp) {
                let j = choose|j: int|
                    k <= j < row.len() && (#[trigger] row[j]).0 is Range && sym_covers(
                        row[j].0,
                        cp,
                    );
                assert(j != k);
                assert(k + 1 <= j < row.len() && (#[trigger] row[j]).0 is Range && sym_covers(
                    row[j].0,
                    cp,
                ));
            }
        }
    }
}

/// Splitting the construction step by symbol kind: what `cp` reaches is
/// what the literal `cp` reaches plus what each covering range reaches.
proof fn lemma_delta_decompose(a: Seq<ArenaNode>, ss: Set<int>, cp: int)
    requires
        0 <= cp <= u32::MAX,
    ensures
        forall|q: int|
            delta_set(a, ss, cp).contains(q) ==> delta_exact(a, ss, Sym::Lit(cp as u32)).contains(
                q,
            ) || exists|r: Sym|
                #[trigger] sym_set(a, ss).contains(r) && r is Range && sym_covers(r, cp)
                    && delta_exact(a, ss, r).contains(q),
        forall|q: int, r: Sym|
            sym_covers(r, cp) && #[trigger] delta_exact(a, ss, r).contains(q) ==> delta_set(
                a,
                ss,
                cp,
            ).contains(q),
{
    assert forall|q: int| delta_set(a, ss, cp).contains(q) implies delta_exact(
        a,
        ss,
        Sym::Lit(cp as u32),
    ).contains(q) || exists|r: Sym|
        #[trigger] sym_set(a, ss).contains(r) && r is Range && sym_covers(r, cp) && delta_exact(
            a,
            ss,
            r,
        ).contains(q) by {
        let p = choose|p: int|
            #[trigger] ss.contains(p) && pos_covers(a, p, cp) && spec_followpos(a, p).contains(q);
        let s = pos_symbol(a, p).unwrap();
        if s is Lit {
            assert(s == Sym::Lit(cp as u32));
            assert(delta_exact(a, ss, Sym::Lit(cp as u32)).contains(q));
        } else {
            assert(sym_set(a, ss).contains(s));
            assert(delta_exact(a, ss, s).contains(q));
        }
    }
    assert forall|q: int, r: Sym|
        sym_covers(r, cp) && #[trigger] delta_exact(a, ss, r).contains(q) implies delta_set(
        a,
        ss,
        cp,
    ).contains(q) by {
        let p = choose|p: int|
            #[trigger] ss.contains(p) && pos_symbol(a, p) == Some(r) && spec_followpos(
                a,
                p,
            ).contains(q);
        assert(pos_covers(a, p, cp));
        assert(ss.contains(p) && pos_covers(a, p, cp) && spec_followpos(a, p).contains(q));
    }
}

} // verus!

// === Executable helpers of the subset construction. ===

verus! {

/// Structural equality of two position vectors.
pub(crate) fn vec_eq_usize(x: &Vec<usize>, y: &Vec<usize>) -> (r: bool)
    ensures
        r <==> x@ == y@,
{
    if x.len() != y.len() {
        return false;
    }
    let n = x.len();
    let mut i: usize = 0;
    while i < n
        invariant
            n == x@.len(),
            n == y@.len(),
            i <= n,
            forall|j: int| 0 <= j < i ==> x@[j] == y@[j],
        decreases n - i,
    {
        if x[i] != y[i] {
            return false;
        }
        i = i + 1;
    }
    proof {
        assert(x@ =~= y@);
    }
    true
}

/// The ordering key of a range symbol's bounds.
pub open spec fn rkey(x: u32, y: u32) -> int {
    (x as int) * 0x1_0000_0000 + y as int
}

/// A strictly key-ordered vector of range bounds.
pub open spec fn rngs_sorted(v: Seq<(u32, u32)>) -> bool {
    forall|k1: int, k2: int|
        0 <= k1 < k2 < v.len() ==> rkey((#[trigger] v[k1]).0, v[k1].1) < rkey(
            (#[trigger] v[k2]).0,
            v[k2].1,
        )
}

fn rkey_exec(x: u32, y: u32) -> (r: u64)
    ensures
        r as int == rkey(x, y),
{
    (x as u64) * 0x1_0000_0000u64 + (y as u64)
}

/// Inserts the bounds pair into a key-ordered vector unless present.
fn insert_range_sorted(v: &mut Vec<(u32, u32)>, x: u32, y: u32)
    requires
        rngs_sorted(old(v)@),
    ensures
        rngs_sorted(final(v)@),
        forall|k: int|
            0 <= k < final(v)@.len() ==> (old(v)@.contains(#[trigger] final(v)@[k])
                || final(v)@[k] == (x, y)),
        forall|k: int| 0 <= k < old(v)@.len() ==> final(v)@.contains(#[trigger] old(v)@[k]),
        final(v)@.contains((x, y)),
        old(v)@.len() <= final(v)@.len() <= old(v)@.len() + 1,
{
    let n = v.len();
    let nk = rkey_exec(x, y);
    let mut idx: usize = 0;
    while idx < n && rkey_exec(v[idx].0, v[idx].1) < nk
        invariant
            idx <= n,
            n == v@.len(),
            forall|j: int| 0 <= j < idx ==> rkey((#[trigger] v@[j]).0, v@[j].1) < rkey(x, y),
        decreases n - idx,
    {
        idx = idx + 1;
    }
    if idx < n {
        let cur = v[idx];
        if cur.0 == x && cur.1 == y {
            proof {
                assert(v@.contains((x, y))) by {
                    assert(v@[idx as int] == (x, y));
                }
                assert forall|k: int| 0 <= k < v@.len() implies v@.contains(#[trigger] v@[k]) by {}
            }
            return ;
        }
        proof {
            assert(rkey(v@[idx as int].0, v@[idx as int].1) != rkey(x, y)) by {
                if rkey(v@[idx as int].0, v@[idx as int].1) == rkey(x, y) {
                    assert(v@[idx as int].0 == x && v@[idx as int].1 == y);
                }
            }
        }
    }
    let ghost v0 = v@;
    v.insert(idx, (x, y));
    proof {
        assert forall|k1: int, k2: int| 0 <= k1 < k2 < v@.len() implies rkey(
            (#[trigger] v@[k1]).0,
            v@[k1].1,
        ) < rkey((#[trigger] v@[k2]).0, v@[k2].1) by {
            if k1 < idx {
                assert(v@[k1] == v0[k1]);
            } else if k1 == idx {
                assert(v@[k1] == (x, y));
            } else {
                assert(v@[k1] == v0[k1 - 1]);
            }
            if k2 < idx {
                assert(v@[k2] == v0[k2]);
            } else if k2 == idx {
                assert(v@[k2] == (x, y));
            } else {
                assert(v@[k2] == v0[k2 - 1]);
            }
        }
        assert(v@.contains((x, y))) by {
            assert(v@[idx as int] == (x, y));
        }
        assert forall|k: int| 0 <= k < v0.len() implies v@.contains(#[trigger] v0[k]) by {
            if k < idx {
                assert(v@[k] == v0[k]);
            } else {
                assert(v@[k + 1] == v0[k]);
            }
        }
        assert forall|k: int| 0 <= k < v@.len() implies (v0.contains(#[trigger] v@[k]) || v@[k]
            == (x, y)) by {
            if k < idx {
                assert(v@[k] == v0[k]);
            } else if k > idx {
                assert(v@[k] == v0[k - 1]);
            }
        }
    }
}

/// The accept tag of a canonical position vector: scans for the first
/// sentinel member and returns its 1-based rule rank.
fn tag_for(arena: &Vec<ArenaNode>, posidx: &Vec<usize>, sv: &Vec<usize>) -> (t: Option<usize>)
    requires
        posidx_ok(arena@, posidx@),
        forall|j: int| 0 <= j < sv@.len() ==> 1 <= #[trigger] sv@[j] <= arena@.len(),
    ensures
        match t {
            Some(g) => accept_tag(arena@, sv@, 0) == Some(g as int),
            None => accept_tag(arena@, sv@, 0) is None,
        },
{
    let m = sv.len();
    let mut k: usize = 0;
    while k < m
        invariant
            k <= m,
            m == sv@.len(),
            accept_tag(arena@, sv@, 0) == accept_tag(arena@, sv@, k as int),
        decreases m - k,
    {
        let p = sv[k];
        let is_sent = if p <= posidx.len() {
            matches!(arena[posidx[p - 1]].value, Token::Sentinel)
        } else {
            false
        };
        proof {
            lemma_posidx_symbol(arena@, posidx@, p as int);
            assert(sentinel_at(arena@, p as int) == is_sent);
        }
        if is_sent {
            let mut c: usize = 0;
            let mut q: usize = 0;
            while q < p
                invariant
                    q <= p,
                    p <= arena@.len(),
                    c <= q,
                    c as int == sent_count_upto(arena@, q as int),
                decreases p - q,
            {
                let s = if q < posidx.len() {
                    proof {
                        assert((#[trigger] posidx@[(q + 1) - 1]) < arena@.len());
                    }
                    matches!(arena[posidx[q]].value, Token::Sentinel)
                } else {
                    false
                };
                proof {
                    lemma_posidx_symbol(arena@, posidx@, q + 1);
                    assert(sentinel_at(arena@, q + 1) == s);
                }
                if s {
                    c = c + 1;
                }
                proof {
                    assert(c as int == sent_count_upto(arena@, q + 1));
                }
                q = q + 1;
            }
            proof {
                assert(accept_tag(arena@, sv@, k as int) == Some(sent_count_upto(arena@, p as int)));
            }
            return Some(c);
        }
        proof {
            assert(accept_tag(arena@, sv@, k as int) == accept_tag(arena@, sv@, k + 1));
        }
        k = k + 1;
    }
    None
}

/// Tags of all states are recorded correctly.
pub open spec fn accept_ok(a: Seq<ArenaNode>, states: Seq<Vec<usize>>, accept: Seq<
    Option<usize>,
>) -> bool {
    accept.len() == states.len() && forall|k: int|
        0 <= k < states.len() ==> (match accept_tag(a, #[trigger] states[k]@, 0) {
            Some(t) => accept[k] is Some && accept[k].unwrap() as int == t,
            None => accept[k] is None,
        })
}

/// Finds the state whose canonical vector equals `u`, or appends `u` as
/// a fresh state with its accept tag.
fn lookup_or_push(
    arena: &Vec<ArenaNode>,
    posidx: &Vec<usize>,
    states: &mut Vec<Vec<usize>>,
    accept: &mut Vec<Option<usize>>,
    u: Vec<usize>,
) -> (t: usize)
    requires
        posidx_ok(arena@, posidx@),
        sorted_strict(u@),
        forall|j: int| 0 <= j < u@.len() ==> 1 <= #[trigger] u@[j] <= arena@.len(),
        states_ok(arena@, old(states)@),
        accept_ok(arena@, old(states)@, old(accept)@),
    ensures
        states_ok(arena@, final(states)@),
        accept_ok(arena@, final(states)@, final(accept)@),
        old(states)@.len() <= final(states)@.len() <= old(states)@.len() + 1,
        forall|k: int|
            0 <= k < old(states)@.len() ==> final(states)@[k] == old(states)@[k]
                && final(accept)@[k] == old(accept)@[k],
        t < final(states)@.len(),
        final(states)@[t as int]@ == u@,
        final(states)@.len() > old(states)@.len() ==> t == old(states)@.len(),
{
    let n = states.len();
    let mut k: usize = 0;
    while k < n
        invariant
            k <= n,
            n == states@.len(),
            forall|j: int| 0 <= j < k ==> (#[trigger] states@[j]@) != u@,
        decreases n - k,
    {
        if vec_eq_usize(&states[k], &u) {
            return k;
        }
        k = k + 1;
    }
    let tag = tag_for(arena, posidx, &u);
    states.push(u);
    accept.push(tag);
    proof {
        assert forall|k1: int, k2: int| 0 <= k1 < k2 < states@.len() implies (
        #[trigger] states@[k1]@) != (#[trigger] states@[k2]@) by {
            if k2 < states@.len() - 1 {
                assert(states@[k1]@ != states@[k2]@);
            }
        }
    }
    n
}

} // verus!

verus! {

/// Every member of a followpos set is itself a position of the arena.
pub proof fn lemma_followpos_bounds(a: Seq<ArenaNode>, p: int)
    ensures
        forall|q: int| spec_followpos(a, p).contains(q) ==> 1 <= q <= a.len(),
{
    assert forall|q: int| spec_followpos(a, p).contains(q) implies 1 <= q <= a.len() by {
        lemma_followpos_upto_bounds(a, a.len() as int, p, q);
    }
}

proof fn lemma_followpos_upto_bounds(a: Seq<ArenaNode>, k: int, p: int, q: int)
    requires
        k <= a.len(),
        followpos_upto(a, k, p).contains(q),
    ensures
        1 <= q <= a.len(),
    decreases k,
{
    if k > 0 {
        if followpos_upto(a, k - 1, p).contains(q) {
            lemma_followpos_upto_bounds(a, k - 1, p, q);
        } else {
            assert(follow_contrib(a, k - 1, p).contains(q));
            let nd = a[k - 1];
            if nd.value is Concat {
                lemma_firstpos_bounds(a, nd.right.unwrap() as int);
                lemma_pos_count_le(a, nd.right.unwrap() + 1);
            } else {
                lemma_firstpos_bounds(a, nd.left.unwrap() as int);
                lemma_pos_count_le(a, nd.left.unwrap() + 1);
            }
        }
    }
}

/// The code points of literal symbols among the first `k` members of a
/// canonical position vector.
pub open spec fn litcps_upto(a: Seq<ArenaNode>, sv: Seq<usize>, k: int) -> Set<int>
    decreases k,
{
    if k <= 0 {
        Set::empty()
    } else {
        litcps_upto(a, sv, k - 1) + (if 0 <= k - 1 < sv.len() {
            match pos_symbol(a, sv[k - 1] as int) {
                Some(s) => match s {
                    Sym::Lit(c) => set![c as int],
                    _ => Set::empty(),
                },
                None => Set::empty(),
            }
        } else {
            Set::empty()
        })
    }
}

proof fn lemma_litcps_upto_iff(a: Seq<ArenaNode>, sv: Seq<usize>, k: int, cp: int)
    ensures
        litcps_upto(a, sv, k).contains(cp) <==> exists|j: int|
            0 <= j < k && j < sv.len() && 0 <= cp <= u32::MAX && pos_symbol(
                a,
                #[trigger] sv[j] as int,
            ) == Some(Sym::Lit(cp as u32)),
    decreases k,
{
    if k > 0 {
        lemma_litcps_upto_iff(a, sv, k - 1, cp);
        if litcps_upto(a, sv, k).contains(cp) {
            if litcps_upto(a, sv, k - 1).contains(cp) {
                let j = choose|j: int|
                    0 <= j < k - 1 && j < sv.len() && 0 <= cp <= u32::MAX && pos_symbol(
                        a,
                        #[trigger] sv[j] as int,
                    ) == Some(Sym::Lit(cp as u32));
                assert(pos_symbol(a, sv[j] as int) == Some(Sym::Lit(cp as u32)));
            } else {
                assert(0 <= k - 1 < sv.len());
                let s = pos_symbol(a, sv[k - 1] as int).unwrap();
                assert(s is Lit);
                assert(s == Sym::Lit(cp as u32));
            }
        }
        if exists|j: int|
            0 <= j < k && j < sv.len() && 0 <= cp <= u32::MAX && pos_symbol(
                a,
                #[trigger] sv[j] as int,
            ) == Some(Sym::Lit(cp as u32)) {
            let j = choose|j: int|
                0 <= j < k && j < sv.len() && 0 <= cp <= u32::MAX && pos_symbol(
                    a,
                    #[trigger] sv[j] as int,
                ) == Some(Sym::Lit(cp as u32));
            if j < k - 1 {
                assert(litcps_upto(a, sv, k - 1).contains(cp));
            } else {
                assert(litcps_upto(a, sv, k).contains(cp));
            }
        }
    }
}

/// Semantic content of one transition edge: its target's canonical
/// vector is exactly what the construction step reaches on its symbol.
pub open spec fn row_sem(
    a: Seq<ArenaNode>,
    ss: Set<int>,
    states: Seq<Vec<usize>>,
    e: (Sym, usize),
) -> bool {
    e.1 < states.len() && match e.0 {
        Sym::Lit(c) => pos_set(states[e.1 as int]@) == delta_set(a, ss, c as int) && delta_set(
            a,
            ss,
            c as int,
        ) != Set::<int>::empty(),
        Sym::Range(_, _) => pos_set(states[e.1 as int]@) == delta_exact(a, ss, e.0) && delta_exact(
            a,
            ss,
            e.0,
        ) != Set::<int>::empty(),
    }
}

/// The scanner's one-row step agrees with the construction step from
/// the state's position set, for every input code point.
pub open spec fn step_matches(
    a: Seq<ArenaNode>,
    states: Seq<Vec<usize>>,
    ss: Set<int>,
    row: Seq<(Sym, usize)>,
    cp: int,
) -> bool {
    match row_step(row, cp) {
        Some(t) => t < states.len() && pos_set(states[t as int]@) == delta_set(a, ss, cp)
            && delta_set(a, ss, cp) != Set::<int>::empty(),
        None => delta_set(a, ss, cp) == Set::<int>::empty(),
    }
}

} // verus!

verus! {

/// Some edge of the row targets state `t`.
pub open spec fn row_has_target(row: Seq<(Sym, usize)>, t: int) -> bool {
    exists|k: int| 0 <= k < row.len() && (#[trigger] row[k]).1 == t
}

/// Some literal edge of the row covers code point `cp`.
pub open spec fn has_lit_edge(row: Seq<(Sym, usize)>, cp: int) -> bool {
    exists|k: int|
        0 <= k < row.len() && (#[trigger] row[k]).0 is Lit && sym_covers(row[k].0, cp)
}

/// Some edge at index `lo` or later carries exactly the range symbol
/// with the given bounds.
pub open spec fn has_range_edge(row: Seq<(Sym, usize)>, lo: int, e: (u32, u32)) -> bool {
    exists|k: int| lo <= k < row.len() && (#[trigger] row[k]).0 == Sym::Range(e.0, e.1)
}

proof fn lemma_push_preserves_target(row1: Seq<(Sym, usize)>, e: (Sym, usize), t: int)
    requires
        row_has_target(row1, t),
    ensures
        row_has_target(row1.push(e), t),
{
    let k = choose|k: int| 0 <= k < row1.len() && (#[trigger] row1[k]).1 == t;
    assert(row1.push(e)[k].1 == t);
}

proof fn lemma_push_lit_edge(row1: Seq<(Sym, usize)>, e: (Sym, usize), cp: int)
    ensures
        has_lit_edge(row1.push(e), cp) <==> has_lit_edge(row1, cp) || (e.0 is Lit && sym_covers(
            e.0,
            cp,
        )),
{
    let row2 = row1.push(e);
    if has_lit_edge(row2, cp) {
        let k = choose|k: int|
            0 <= k < row2.len() && (#[trigger] row2[k]).0 is Lit && sym_covers(row2[k].0, cp);
        if k < row1.len() {
            assert(row1[k].0 is Lit && sym_covers(row1[k].0, cp));
        }
    }
    if has_lit_edge(row1, cp) {
        let k = choose|k: int|
            0 <= k < row1.len() && (#[trigger] row1[k]).0 is Lit && sym_covers(row1[k].0, cp);
        assert(row2[k].0 is Lit && sym_covers(row2[k].0, cp));
    }
    if e.0 is Lit && sym_covers(e.0, cp) {
        assert(row2[row2.len() - 1].0 is Lit && sym_covers(row2[row2.len() - 1].0, cp));
    }
}

proof fn lemma_push_range_edge(row1: Seq<(Sym, usize)>, e: (Sym, usize), lo: int, b: (u32, u32))
    requires
        0 <= lo,
    ensures
        has_range_edge(row1.push(e), lo, b) <==> has_range_edge(row1, lo, b) || (lo
            <= row1.len() && e.0 == Sym::Range(b.0, b.1)),
{
    let row2 = row1.push(e);
    if has_range_edge(row2, lo, b) {
        let k = choose|k: int| lo <= k < row2.len() && (#[trigger] row2[k]).0 == Sym::Range(b.0, b.1);
        if k < row1.len() {
            assert(row1[k].0 == Sym::Range(b.0, b.1));
        }
    }
    if has_range_edge(row1, lo, b) {
        let k = choose|k: int| lo <= k < row1.len() && (#[trigger] row1[k]).0 == Sym::Range(b.0, b.1);
        assert(row2[k].0 == Sym::Range(b.0, b.1));
    }
    if lo <= row1.len() && e.0 == Sym::Range(b.0, b.1) {
        assert(row2[row2.len() - 1].0 == Sym::Range(b.0, b.1));
    }
}

} // verus!

verus! {

/// Builds the transition row of one state: collects the state's literal
/// and range symbols, rejects overlapping ranges, and emits one edge per
/// symbol whose construction step is nonempty, discovering new states.
/// Every range symbol of the state whose exact step is nonempty has an
/// edge in the row.
pub open spec fn range_edges_complete(
    a: Seq<ArenaNode>,
    ss: Set<int>,
    row: Seq<(Sym, usize)>,
) -> bool {
    forall|x: u32, y: u32|
        #![trigger delta_exact(a, ss, Sym::Range(x, y))]
        (exists|p: int| ss.contains(p) && #[trigger] pos_symbol(a, p) == Some(Sym::Range(x, y)))
            && delta_exact(a, ss, Sym::Range(x, y)) != Set::<int>::empty() ==> has_range_edge(
            row,
            0,
            (x, y),
        )
}

/// Reads the edge symbol carried by position `p` through the table.
fn symbol_at(arena: &Vec<ArenaNode>, posidx: &Vec<usize>, p: usize) -> (r: Option<Sym>)
    requires
        posidx_ok(arena@, posidx@),
    ensures
        r == pos_symbol(arena@, p as int),
{
    proof {
        lemma_posidx_symbol(arena@, posidx@, p as int);
    }
    if 1 <= p && p <= posidx.len() {
        match arena[posidx[p - 1]].value {
            Token::Literal(c) => Some(Sym::Lit(c as u32)),
            Token::Range(x, y) => Some(Sym::Range(x as u32, y as u32)),
            _ => None,
        }
    } else {
        None
    }
}

#[verifier::rlimit(100)]
fn build_row(
    arena: &Vec<ArenaNode>,
    posidx: &Vec<usize>,
    follow: &Vec<Vec<usize>>,
    sv: &Vec<usize>,
    states: &mut Vec<Vec<usize>>,
    accept: &mut Vec<Option<usize>>,
) -> (r: Result<Vec<(Sym, usize)>, CompileError>)
    requires
        posidx_ok(arena@, posidx@),
        follow@.len() == arena@.len(),
        forall|p: int|
            1 <= p <= follow@.len() ==> sorted_strict(#[trigger] follow@[p - 1]@) && pos_set(
                follow@[p - 1]@,
            ) == spec_followpos(arena@, p),
        sorted_strict(sv@),
        forall|j: int| 0 <= j < sv@.len() ==> 1 <= #[trigger] sv@[j] <= arena@.len(),
        set_reachable(arena@, pos_set(sv@)),
        states_ok(arena@, old(states)@),
        accept_ok(arena@, old(states)@, old(accept)@),
    ensures
        states_ok(arena@, final(states)@),
        accept_ok(arena@, final(states)@, final(accept)@),
        old(states)@.len() <= final(states)@.len(),
        forall|k: int|
            0 <= k < old(states)@.len() ==> final(states)@[k] == old(states)@[k]
                && final(accept)@[k] == old(accept)@[k],
        match r {
            Ok(row) => row_wf(row@, final(states)@.len() as int) && (forall|cp: int|
                #[trigger] step_matches(arena@, final(states)@, pos_set(sv@), row@, cp)) && (
            forall|t: int|
                old(states)@.len() <= t < final(states)@.len() ==> #[trigger] row_has_target(
                    row@,
                    t,
                )) && !state_has_overlap(arena@, pos_set(sv@)) && (forall|t: int|
                old(states)@.len() <= t < final(states)@.len()
                    ==> #[trigger] set_reachable(arena@, pos_set(final(states)@[t]@))) && (
            forall|k: int|
                0 <= k < row@.len() ==> row_sem(
                    arena@,
                    pos_set(sv@),
                    final(states)@,
                    #[trigger] row@[k],
                )) && range_edges_complete(arena@, pos_set(sv@), row@),
            Err(e) => e == CompileError::AmbiguousRange && state_has_overlap(
                arena@,
                pos_set(sv@),
            ) && final(states)@ == old(states)@ && final(accept)@ == old(accept)@,
        },
{
    let ghost a = arena@;
    let ghost ss = pos_set(sv@);
    let svn = sv.len();

    // Phase 1: the distinct literal code points of the state.
    let mut lits: Vec<usize> = Vec::new();
    let mut j: usize = 0;
    while j < svn
        invariant
            j <= svn,
            sorted_strict(lits@),
            pos_set(lits@) == litcps_upto(a, sv@, j as int),
        decreases svn - j,
    {
        let p = sv[j];
        match symbol_at(arena, posidx, p) {
            Some(Sym::Lit(cu)) => {
                let mut single: Vec<usize> = Vec::new();
                single.push(cu as usize);
                proof {
                    assert(single@.drop_last() =~= Seq::<usize>::empty());
                    assert(pos_set(single@.drop_last()) == Set::<int>::empty());
                    assert(single@.last() == cu as usize);
                    assert(pos_set(single@) == Set::<int>::empty().insert(cu as int));
                    assert(pos_set(single@) =~= set![cu as int]);
                }
                let merged = union_sorted(&lits, &single);
                lits = merged;
                proof {
                    assert(pos_set(lits@) =~= litcps_upto(a, sv@, j + 1));
                }
            },
            _ => {
                proof {
                    assert(litcps_upto(a, sv@, j + 1) =~= litcps_upto(a, sv@, j as int));
                }
            },
        }
        j = j + 1;
    }
    proof {
        assert forall|cp: int| pos_set(lits@).contains(cp) implies 0 <= cp <= u32::MAX by {
            lemma_litcps_upto_iff(a, sv@, svn as int, cp);
        }
    }

    // Phase 2: the distinct range symbols of the state.
    let mut rngs: Vec<(u32, u32)> = Vec::new();
    let mut j2: usize = 0;
    while j2 < svn
        invariant
            j2 <= svn,
            rngs_sorted(rngs@),
            forall|e: (u32, u32)|
                rngs@.contains(e) ==> exists|jj: int|
                    0 <= jj < j2 && pos_symbol(a, #[trigger] sv@[jj] as int) == Some(
                        Sym::Range(e.0, e.1),
                    ),
            forall|jj: int, x: u32, y: u32|
                #![trigger pos_symbol(a, sv@[jj] as int), rngs@.contains((x, y))]
                0 <= jj < j2 && pos_symbol(a, sv@[jj] as int) == Some(Sym::Range(x, y))
                    ==> rngs@.contains((x, y)),
        decreases svn - j2,
    {
        let p = sv[j2];
        let ghost rngs0 = rngs@;
        match symbol_at(arena, posidx, p) {
            Some(Sym::Range(cx, cy)) => {
                insert_range_sorted(&mut rngs, cx, cy);
            },
            _ => {},
        }
        proof {
            assert forall|e: (u32, u32)| rngs@.contains(e) implies exists|jj: int|
                0 <= jj < j2 + 1 && pos_symbol(a, #[trigger] sv@[jj] as int) == Some(
                    Sym::Range(e.0, e.1),
                ) by {
                if rngs0.contains(e) {
                    let jj = choose|jj: int|
                        0 <= jj < j2 && pos_symbol(a, #[trigger] sv@[jj] as int) == Some(
                            Sym::Range(e.0, e.1),
                        );
                    assert(pos_symbol(a, sv@[jj] as int) == Some(Sym::Range(e.0, e.1)));
                } else {
                    assert(pos_symbol(a, sv@[j2 as int] as int) == Some(Sym::Range(e.0, e.1)));
                }
            }
            assert forall|jj: int, x: u32, y: u32|
                #![trigger pos_symbol(a, sv@[jj] as int), rngs@.contains((x, y))]
                0 <= jj < j2 + 1 && pos_symbol(a, sv@[jj] as int) == Some(
                    Sym::Range(x, y),
                ) implies rngs@.contains((x, y)) by {
                if jj < j2 {
                    assert(rngs0.contains((x, y)));
                    let k = choose|k: int| 0 <= k < rngs0.len() && rngs0[k] == (x, y);
                    assert(rngs@.contains(rngs0[k]));
                }
            }
        }
        j2 = j2 + 1;
    }

    // Phase 3: distinct ranges that overlap are ambiguous.
    let rn = rngs.len();
    let mut k1: usize = 0;
    while k1 < rn
        invariant
            k1 <= rn,
            rn == rngs@.len(),
            forall|i1: int, i2: int|
                0 <= i1 < k1 && 0 <= i2 < rn && i1 != i2 ==> ranges_disjoint(
                    Sym::Range((#[trigger] rngs@[i1]).0, rngs@[i1].1),
                    Sym::Range((#[trigger] rngs@[i2]).0, rngs@[i2].1),
                ),
        decreases rn - k1,
    {
        let mut k2: usize = 0;
        while k2 < rn
            invariant
                k1 < rn,
                k2 <= rn,
                rn == rngs@.len(),
                forall|i2: int|
                    0 <= i2 < k2 && i2 != k1 ==> ranges_disjoint(
                        Sym::Range(rngs@[k1 as int].0, rngs@[k1 as int].1),
                        Sym::Range((#[trigger] rngs@[i2]).0, rngs@[i2].1),
                    ),
            decreases rn - k2,
        {
            if k2 != k1 {
                let r1 = rngs[k1];
                let r2 = rngs[k2];
                if !(r1.1 < r2.0 || r2.1 < r1.0) {
                    proof {
                        // Two distinct collected ranges overlap; each
                        // came from some position of this state.
                        assert(rngs@.contains(r1)) by {
                            assert(rngs@[k1 as int] == r1);
                        }
                        assert(rngs@.contains(r2)) by {
                            assert(rngs@[k2 as int] == r2);
                        }
                        let jj1 = choose|jj: int|
                            0 <= jj < svn && pos_symbol(a, #[trigger] sv@[jj] as int) == Some(
                                Sym::Range(r1.0, r1.1),
                            );
                        let jj2 = choose|jj: int|
                            0 <= jj < svn && pos_symbol(a, #[trigger] sv@[jj] as int) == Some(
                                Sym::Range(r2.0, r2.1),
                            );
                        assert(r1 != r2) by {
                            if k1 < k2 {
                                assert(rkey(rngs@[k1 as int].0, rngs@[k1 as int].1) < rkey(
                                    rngs@[k2 as int].0,
                                    rngs@[k2 as int].1,
                                ));
                            } else {
                                assert(rkey(rngs@[k2 as int].0, rngs@[k2 as int].1) < rkey(
                                    rngs@[k1 as int].0,
                                    rngs@[k1 as int].1,
                                ));
                            }
                        }
                        assert(overlapping_ranges_at(a, sv@[jj1] as int, sv@[jj2] as int));
                        lemma_pos_set_iff(sv@, sv@[jj1] as int);
                        lemma_pos_set_iff(sv@, sv@[jj2] as int);
                        assert(ss.contains(sv@[jj1] as int));
                        assert(ss.contains(sv@[jj2] as int));
                        assert(state_has_overlap(a, ss));
                    }
                    return Err(CompileError::AmbiguousRange);
                }
            }
            k2 = k2 + 1;
        }
        proof {
            assert forall|i1: int, i2: int|
                0 <= i1 < k1 + 1 && 0 <= i2 < rn && i1 != i2 implies ranges_disjoint(
                Sym::Range((#[trigger] rngs@[i1]).0, rngs@[i1].1),
                Sym::Range((#[trigger] rngs@[i2]).0, rngs@[i2].1),
            ) by {
                if i1 == k1 {
                    assert(ranges_disjoint(
                        Sym::Range(rngs@[k1 as int].0, rngs@[k1 as int].1),
                        Sym::Range(rngs@[i2].0, rngs@[i2].1),
                    ));
                }
            }
        }
        k1 = k1 + 1;
    }

    // Since the pairwise check passed, no two positions of this state
    // carry distinct overlapping ranges.
    proof {
        assert(!state_has_overlap(a, ss)) by {
            if state_has_overlap(a, ss) {
                let (p1, p2) = choose|p1: int, p2: int|
                    ss.contains(p1) && ss.contains(p2) && #[trigger] overlapping_ranges_at(
                        a,
                        p1,
                        p2,
                    );
                let r1 = pos_symbol(a, p1).unwrap();
                let r2 = pos_symbol(a, p2).unwrap();
                let x1 = r1->Range_0;
                let y1 = r1->Range_1;
                let x2 = r2->Range_0;
                let y2 = r2->Range_1;
                lemma_pos_set_iff(sv@, p1);
                lemma_pos_set_iff(sv@, p2);
                let jj1 = choose|j: int| 0 <= j < sv@.len() && p1 == sv@[j] as int;
                let jj2 = choose|j: int| 0 <= j < sv@.len() && p2 == sv@[j] as int;
                assert(pos_symbol(a, sv@[jj1] as int) == Some(Sym::Range(x1, y1)));
                assert(pos_symbol(a, sv@[jj2] as int) == Some(Sym::Range(x2, y2)));
                assert(rngs@.contains((x1, y1)));
                assert(rngs@.contains((x2, y2)));
                let i1 = choose|i: int| 0 <= i < rngs@.len() && rngs@[i] == (x1, y1);
                let i2 = choose|i: int| 0 <= i < rngs@.len() && rngs@[i] == (x2, y2);
                assert((x1, y1) != (x2, y2));
                assert(i1 != i2);
                assert(ranges_disjoint(
                    Sym::Range(rngs@[i1].0, rngs@[i1].1),
                    Sym::Range(rngs@[i2].0, rngs@[i2].1),
                ));
                assert(false);
            }
        }
    }

    let ghost n0 = states@.len();

    // Phase 4: one edge per literal code point whose step is nonempty.
    let mut row: Vec<(Sym, usize)> = Vec::new();
    let ln = lits.len();
    let mut li: usize = 0;
    while li < ln
        invariant
            li <= ln,
            ln == lits@.len(),
            states_ok(a, states@),
            accept_ok(a, states@, accept@),
            n0 <= states@.len(),
            forall|k: int|
                0 <= k < n0 ==> states@[k] == old(states)@[k] && accept@[k] == old(accept)@[k],
            forall|k: int| 0 <= k < row@.len() ==> row_sem(a, ss, states@, #[trigger] row@[k]),
            forall|k1: int, k2: int|
                0 <= k1 < k2 < row@.len() ==> sym_key((#[trigger] row@[k1]).0) < sym_key(
                    (#[trigger] row@[k2]).0,
                ),
            forall|k: int| 0 <= k < row@.len() ==> (#[trigger] row@[k]).0 is Lit,
            forall|k: int|
                0 <= k < row@.len() && li < ln ==> sym_key((#[trigger] row@[k]).0)
                    < lits@[li as int],
            forall|cp: int|
                #![trigger delta_set(a, ss, cp)]
                has_lit_edge(row@, cp) <==> (pos_set(lits@.take(li as int)).contains(cp)
                    && delta_set(a, ss, cp) != Set::<int>::empty()),
            forall|t: int|
                n0 <= t < states@.len() ==> #[trigger] row_has_target(row@, t),
            forall|t: int|
                n0 <= t < states@.len() ==> #[trigger] set_reachable(a, pos_set(states@[t]@)),
        decreases ln - li,
    {
        let cp = lits[li];
        proof {
            lemma_pos_set_iff(lits@, cp as int);
            assert(pos_set(lits@).contains(cp as int)) by {
                assert(lits@[li as int] == cp);
            }
        }
        let mut u: Vec<usize> = Vec::new();
        let mut jj: usize = 0;
        while jj < svn
            invariant
                jj <= svn,
                sorted_strict(u@),
                pos_set(u@) == delta_vec_upto(a, sv@, jj as int, cp as int),
            decreases svn - jj,
        {
            let p = sv[jj];
            let covered = match symbol_at(arena, posidx, p) {
                Some(Sym::Lit(l)) => l as usize == cp,
                Some(Sym::Range(cx, cy)) => cx as usize <= cp && cp <= cy as usize,
                None => false,
            };
            proof {
                assert(covered == pos_covers(a, p as int, cp as int));
            }
            if covered {
                let merged = union_sorted(&u, &follow[p - 1]);
                u = merged;
            }
            proof {
                assert(pos_set(u@) =~= delta_vec_upto(a, sv@, jj + 1, cp as int));
            }
            jj = jj + 1;
        }
        proof {
            lemma_delta_vec_full(a, sv@, cp as int);
        }
        let ghost row0 = row@;
        let ghost states0 = states@;
        if u.len() > 0 {
            proof {
                lemma_pos_set_iff(u@, u@[0] as int);
                assert(pos_set(u@).contains(u@[0] as int)) by {
                    assert(u@[0] == u@[0]);
                }
                assert(delta_set(a, ss, cp as int) != Set::<int>::empty());
                assert forall|jx: int| 0 <= jx < u@.len() implies 1 <= #[trigger] u@[jx]
                    <= arena@.len() by {
                    lemma_pos_set_iff(u@, u@[jx] as int);
                    assert(pos_set(u@).contains(u@[jx] as int));
                    let p = choose|p: int|
                        #[trigger] ss.contains(p) && pos_covers(a, p, cp as int) && spec_followpos(
                            a,
                            p,
                        ).contains(u@[jx] as int);
                    lemma_followpos_bounds(a, p);
                }
            }
            let t = lookup_or_push(arena, posidx, states, accept, u);
            let edge = (Sym::Lit(cp as u32), t);
            row.push(edge);
            proof {
                assert(row@ == row0.push(edge));
                assert(row_sem(a, ss, states@, edge));
                assert forall|k: int| 0 <= k < row@.len() implies row_sem(
                    a,
                    ss,
                    states@,
                    #[trigger] row@[k],
                ) by {
                    if k < row0.len() {
                        assert(row_sem(a, ss, states0, row0[k]));
                        assert(row@[k] == row0[k]);
                    }
                }
                assert forall|t2: int| n0 <= t2 < states@.len() implies #[trigger] row_has_target(
                    row@,
                    t2,
                ) by {
                    if t2 < states0.len() {
                        assert(row_has_target(row0, t2));
                        lemma_push_preserves_target(row0, edge, t2);
                    } else {
                        assert(t2 == t as int);
                        assert(row@[row@.len() - 1].1 == t2);
                    }
                }
                assert forall|t2: int| n0 <= t2 < states@.len() implies #[trigger] set_reachable(
                    a,
                    pos_set(states@[t2]@),
                ) by {
                    if t2 < states0.len() {
                        assert(set_reachable(a, pos_set(states0[t2]@)));
                        assert(states@[t2] == states0[t2]);
                    } else {
                        assert(t2 == t as int);
                        assert(states@[t2]@ == u@);
                        assert(pos_set(u@) == delta_set(a, ss, cp as int));
                        assert(construction_step(a, ss, pos_set(states@[t2]@)));
                        lemma_reachable_step(a, ss, pos_set(states@[t2]@));
                    }
                }
            }
        }
        proof {
            lemma_pos_set_take_step(lits@, li as int);
            assert forall|cp2: int|
                #![trigger delta_set(a, ss, cp2)]
                has_lit_edge(row@, cp2) <==> (pos_set(lits@.take(li + 1)).contains(cp2)
                && delta_set(a, ss, cp2) != Set::<int>::empty()) by {
                if u.len() > 0 {
                    lemma_push_lit_edge(row0, (Sym::Lit(cp as u32), row@[row@.len() - 1].1), cp2);
                    assert(row@ == row0.push((Sym::Lit(cp as u32), row@[row@.len() - 1].1)));
                } else {
                    assert(row@ == row0);
                    assert(pos_set(u@) =~= Set::<int>::empty());
                }
                if cp2 == cp as int {
                    assert(pos_set(lits@.take(li + 1)).contains(cp2));
                } else {
                    assert(pos_set(lits@.take(li + 1)).contains(cp2) <==> pos_set(
                        lits@.take(li as int),
                    ).contains(cp2));
                    assert(!(Sym::Lit(cp as u32) is Lit && sym_covers(Sym::Lit(cp as u32), cp2)));
                }
            }
        }
        li = li + 1;
    }
    proof {
        assert(lits@.take(ln as int) =~= lits@);
    }

    // Phase 5: one edge per range symbol whose step is nonempty.
    let ghost litlen = row@.len() as int;
    let mut ri: usize = 0;
    while ri < rn
        invariant
            ri <= rn,
            rn == rngs@.len(),
            states_ok(a, states@),
            accept_ok(a, states@, accept@),
            n0 <= states@.len(),
            forall|k: int|
                0 <= k < n0 ==> states@[k] == old(states)@[k] && accept@[k] == old(accept)@[k],
            forall|k: int| 0 <= k < row@.len() ==> row_sem(a, ss, states@, #[trigger] row@[k]),
            forall|k1: int, k2: int|
                0 <= k1 < k2 < row@.len() ==> sym_key((#[trigger] row@[k1]).0) < sym_key(
                    (#[trigger] row@[k2]).0,
                ),
            0 <= litlen <= row@.len(),
            forall|k: int| 0 <= k < litlen ==> (#[trigger] row@[k]).0 is Lit,
            forall|k: int| litlen <= k < row@.len() ==> (#[trigger] row@[k]).0 is Range,
            forall|k: int|
                litlen <= k < row@.len() && ri < rn ==> sym_key((#[trigger] row@[k]).0) < sym_key(
                    Sym::Range(rngs@[ri as int].0, rngs@[ri as int].1),
                ),
            forall|k: int, e: (u32, u32)|
                #![trigger row@[k], rngs@.contains(e)]
                litlen <= k < row@.len() && row@[k].0 == Sym::Range(e.0, e.1) ==> rngs@.contains(
                    e,
                ),
            forall|cp: int|
                #![trigger delta_set(a, ss, cp)]
                has_lit_edge(row@, cp) <==> (pos_set(lits@).contains(cp) && delta_set(a, ss, cp)
                    != Set::<int>::empty()),
            forall|e: (u32, u32)|
                #![trigger delta_exact(a, ss, Sym::Range(e.0, e.1))]
                has_range_edge(row@, litlen, e) <==> (rngs@.take(ri as int).contains(e)
                    && delta_exact(a, ss, Sym::Range(e.0, e.1)) != Set::<int>::empty()),
            forall|t: int|
                n0 <= t < states@.len() ==> #[trigger] row_has_target(row@, t),
            forall|t: int|
                n0 <= t < states@.len() ==> #[trigger] set_reachable(a, pos_set(states@[t]@)),
        decreases rn - ri,
    {
        let rng = rngs[ri];
        let sym = Sym::Range(rng.0, rng.1);
        let mut u: Vec<usize> = Vec::new();
        let mut jj: usize = 0;
        while jj < svn
            invariant
                jj <= svn,
                sorted_strict(u@),
                pos_set(u@) == dexact_vec_upto(a, sv@, jj as int, sym),
            decreases svn - jj,
        {
            let p = sv[jj];
            let matched = match symbol_at(arena, posidx, p) {
                Some(Sym::Range(cx, cy)) => cx == rng.0 && cy == rng.1,
                _ => false,
            };
            proof {
                assert(matched == (pos_symbol(a, p as int) == Some(sym)));
            }
            if matched {
                let merged = union_sorted(&u, &follow[p - 1]);
                u = merged;
            }
            proof {
                assert(pos_set(u@) =~= dexact_vec_upto(a, sv@, jj + 1, sym));
            }
            jj = jj + 1;
        }
        proof {
            lemma_dexact_vec_full(a, sv@, sym);
        }
        let ghost row0 = row@;
        let ghost states0 = states@;
        let mut pushed = false;
        if u.len() > 0 {
            proof {
                lemma_pos_set_iff(u@, u@[0] as int);
                assert(pos_set(u@).contains(u@[0] as int)) by {
                    assert(u@[0] == u@[0]);
                }
                assert(delta_exact(a, ss, sym) != Set::<int>::empty());
                assert forall|jx: int| 0 <= jx < u@.len() implies 1 <= #[trigger] u@[jx]
                    <= arena@.len() by {
                    lemma_pos_set_iff(u@, u@[jx] as int);
                    assert(pos_set(u@).contains(u@[jx] as int));
                    let p = choose|p: int|
                        #[trigger] ss.contains(p) && pos_symbol(a, p) == Some(sym)
                            && spec_followpos(a, p).contains(u@[jx] as int);
                    lemma_followpos_bounds(a, p);
                }
            }
            let t = lookup_or_push(arena, posidx, states, accept, u);
            let edge = (sym, t);
            row.push(edge);
            pushed = true;
            proof {
                assert(row@ == row0.push(edge));
                assert(row_sem(a, ss, states@, edge));
                assert forall|k: int| 0 <= k < row@.len() implies row_sem(
                    a,
                    ss,
                    states@,
                    #[trigger] row@[k],
                ) by {
                    if k < row0.len() {
                        assert(row_sem(a, ss, states0, row0[k]));
                        assert(row@[k] == row0[k]);
                    }
                }
                assert forall|t2: int| n0 <= t2 < states@.len() implies #[trigger] row_has_target(
                    row@,
                    t2,
                ) by {
                    if t2 < states0.len() {
                        assert(row_has_target(row0, t2));
                        lemma_push_preserves_target(row0, edge, t2);
                    } else {
                        assert(t2 == t as int);
                        assert(row@[row@.len() - 1].1 == t2);
                    }
                }
                assert forall|t2: int| n0 <= t2 < states@.len() implies #[trigger] set_reachable(
                    a,
                    pos_set(states@[t2]@),
                ) by {
                    if t2 < states0.len() {
                        assert(set_reachable(a, pos_set(states0[t2]@)));
                        assert(states@[t2] == states0[t2]);
                    } else {
                        assert(t2 == t as int);
                        assert(states@[t2]@ == u@);
                        assert(pos_set(u@) == delta_exact(a, ss, sym));
                        assert(sym == Sym::Range(rng.0, rng.1));
                        assert(construction_step(a, ss, pos_set(states@[t2]@)));
                        lemma_reachable_step(a, ss, pos_set(states@[t2]@));
                    }
                }
            }
        }
        proof {
            let rowd = row@;
            assert forall|cp2: int|
                #![trigger delta_set(a, ss, cp2)]
                has_lit_edge(rowd, cp2) <==> (pos_set(lits@).contains(cp2) && delta_set(
                a,
                ss,
                cp2,
            ) != Set::<int>::empty()) by {
                if pushed {
                    lemma_push_lit_edge(row0, rowd[rowd.len() - 1], cp2);
                    assert(rowd == row0.push(rowd[rowd.len() - 1]));
                    assert(!(rowd[rowd.len() - 1].0 is Lit));
                }
            }
            assert forall|e: (u32, u32)|
                #![trigger delta_exact(a, ss, Sym::Range(e.0, e.1))]
                has_range_edge(rowd, litlen, e) <==> (rngs@.take(ri + 1).contains(e)
                && delta_exact(a, ss, Sym::Range(e.0, e.1)) != Set::<int>::empty()) by {
                if pushed {
                    lemma_push_range_edge(row0, rowd[rowd.len() - 1], litlen, e);
                    assert(rowd == row0.push(rowd[rowd.len() - 1]));
                } else {
                    assert(rowd == row0);
                    assert(pos_set(u@) =~= Set::<int>::empty());
                }
                assert(rngs@.take(ri + 1).contains(e) <==> (rngs@.take(ri as int).contains(e) || e
                    == rngs@[ri as int])) by {
                    if rngs@.take(ri + 1).contains(e) {
                        let i = choose|i: int|
                            0 <= i < ri + 1 && #[trigger] rngs@.take(ri + 1)[i] == e;
                        if i < ri {
                            assert(rngs@.take(ri as int)[i] == e);
                        }
                    }
                    if rngs@.take(ri as int).contains(e) {
                        let i = choose|i: int|
                            0 <= i < ri && #[trigger] rngs@.take(ri as int)[i] == e;
                        assert(rngs@.take(ri + 1)[i] == e);
                    }
                    if e == rngs@[ri as int] {
                        assert(rngs@.take(ri + 1)[ri as int] == e);
                    }
                }
                if e == rngs@[ri as int] && !pushed {
                    assert(delta_exact(a, ss, Sym::Range(e.0, e.1)) == Set::<int>::empty());
                }
                if e == rngs@[ri as int] && pushed {
                    assert(rowd[rowd.len() - 1].0 == Sym::Range(e.0, e.1));
                }
            }
        }
        ri = ri + 1;
    }
    proof {
        assert(rngs@.take(rn as int) =~= rngs@);
        lemma_build_row_complete(a, ss, sv@, lits@, rngs@, litlen, row@, states@, svn as int);
        assert forall|x: u32, y: u32|
            #![trigger delta_exact(a, ss, Sym::Range(x, y))]
            (exists|p: int|
                ss.contains(p) && #[trigger] pos_symbol(a, p) == Some(Sym::Range(x, y)))
                && delta_exact(a, ss, Sym::Range(x, y)) != Set::<int>::empty() implies
            has_range_edge(row@, 0, (x, y)) by {
            let p = choose|p: int|
                ss.contains(p) && #[trigger] pos_symbol(a, p) == Some(Sym::Range(x, y));
            lemma_pos_set_iff(sv@, p);
            let jj = choose|j: int| 0 <= j < sv@.len() && p == sv@[j] as int;
            assert(pos_symbol(a, sv@[jj] as int) == Some(Sym::Range(x, y)));
            assert(rngs@.contains((x, y)));
            assert(rngs@.take(rn as int).contains((x, y)));
            assert(has_range_edge(row@, litlen, (x, y)));
            let k = choose|k: int|
                litlen <= k < row@.len() && (#[trigger] row@[k]).0 == Sym::Range(x, y);
            assert(0 <= k < row@.len() && row@[k].0 == Sym::Range(x, y));
        }
        assert(range_edges_complete(a, ss, row@));
    }
    Ok(row)
}

} // verus!

verus! {

/// From the content of a finished row — literal edges exactly for the
/// state's literal code points with nonempty steps, range edges exactly
/// for its pairwise-disjoint ranges with nonempty steps — the scanner's
/// prioritized row step computes the construction step on every input.
#[verifier::rlimit(100)]
proof fn lemma_build_row_complete(
    a: Seq<ArenaNode>,
    ss: Set<int>,
    sv: Seq<usize>,
    lits: Seq<usize>,
    rngs: Seq<(u32, u32)>,
    litlen: int,
    row: Seq<(Sym, usize)>,
    states: Seq<Vec<usize>>,
    svn: int,
)
    requires
        ss == pos_set(sv),
        svn == sv.len(),
        pos_set(lits) == litcps_upto(a, sv, svn),
        forall|e: (u32, u32)|
            rngs.contains(e) ==> exists|jj: int|
                0 <= jj < svn && pos_symbol(a, #[trigger] sv[jj] as int) == Some(
                    Sym::Range(e.0, e.1),
                ),
        forall|jj: int, x: u32, y: u32|
            #![trigger pos_symbol(a, sv[jj] as int), rngs.contains((x, y))]
            0 <= jj < svn && pos_symbol(a, sv[jj] as int) == Some(Sym::Range(x, y))
                ==> rngs.contains((x, y)),
        rngs_sorted(rngs),
        forall|i1: int, i2: int|
            0 <= i1 < rngs.len() && 0 <= i2 < rngs.len() && i1 != i2 ==> ranges_disjoint(
                Sym::Range((#[trigger] rngs[i1]).0, rngs[i1].1),
                Sym::Range((#[trigger] rngs[i2]).0, rngs[i2].1),
            ),
        forall|k: int| 0 <= k < row.len() ==> row_sem(a, ss, states, #[trigger] row[k]),
        forall|k1: int, k2: int|
            0 <= k1 < k2 < row.len() ==> sym_key((#[trigger] row[k1]).0) < sym_key(
                (#[trigger] row[k2]).0,
            ),
        0 <= litlen <= row.len(),
        forall|k: int| 0 <= k < litlen ==> (#[trigger] row[k]).0 is Lit,
        forall|k: int| litlen <= k < row.len() ==> (#[trigger] row[k]).0 is Range,
        forall|cp: int|
            #![trigger delta_set(a, ss, cp)]
            has_lit_edge(row, cp) <==> (pos_set(lits).contains(cp) && delta_set(a, ss, cp)
                != Set::<int>::empty()),
        forall|k: int, e: (u32, u32)|
            #![trigger row[k], rngs.contains(e)]
            litlen <= k < row.len() && row[k].0 == Sym::Range(e.0, e.1) ==> rngs.contains(e),
        forall|e: (u32, u32)|
            #![trigger delta_exact(a, ss, Sym::Range(e.0, e.1))]
            has_range_edge(row, litlen, e) <==> (rngs.contains(e) && delta_exact(
                a,
                ss,
                Sym::Range(e.0, e.1),
            ) != Set::<int>::empty()),
    ensures
        row_wf(row, states.len() as int),
        forall|cp: int| #[trigger] step_matches(a, states, ss, row, cp),
{
    assert forall|k1: int, k2: int|
        0 <= k1 < row.len() && 0 <= k2 < row.len() && k1 != k2 implies ranges_disjoint(
        (#[trigger] row[k1]).0,
        (#[trigger] row[k2]).0,
    ) by {
        if row[k1].0 is Range && row[k2].0 is Range {
            let e1 = (row[k1].0->Range_0, row[k1].0->Range_1);
            let e2 = (row[k2].0->Range_0, row[k2].0->Range_1);
            assert(k1 >= litlen && k2 >= litlen);
            assert(rngs.contains(e1));
            assert(rngs.contains(e2));
            let i1 = choose|i: int| 0 <= i < rngs.len() && rngs[i] == e1;
            let i2 = choose|i: int| 0 <= i < rngs.len() && rngs[i] == e2;
            if k1 < k2 {
                assert(sym_key(row[k1].0) < sym_key(row[k2].0));
            } else {
                assert(sym_key(row[k2].0) < sym_key(row[k1].0));
            }
            assert(e1 != e2);
            assert(i1 != i2);
            assert(ranges_disjoint(
                Sym::Range(rngs[i1].0, rngs[i1].1),
                Sym::Range(rngs[i2].0, rngs[i2].1),
            ));
        }
    }
    assert forall|k: int| 0 <= k < row.len() implies (#[trigger] row[k]).1
        < states.len() as int by {
        assert(row_sem(a, ss, states, row[k]));
    }

    assert forall|cp: int| #[trigger] step_matches(a, states, ss, row, cp) by {
        lemma_row_find_lit_iff(row, 0, cp);
        lemma_row_find_range_iff(row, 0, cp);
        if cp < 0 || cp > u32::MAX {
            assert forall|k: int| 0 <= k < row.len() implies !sym_covers(
                (#[trigger] row[k]).0,
                cp,
            ) by {}
            assert(row_find_lit(row, 0, cp) is None);
            assert(row_find_range(row, 0, cp) is None);
            assert forall|q: int| !delta_set(a, ss, cp).contains(q) by {
                if delta_set(a, ss, cp).contains(q) {
                    let p = choose|p: int|
                        #[trigger] ss.contains(p) && pos_covers(a, p, cp) && spec_followpos(
                            a,
                            p,
                        ).contains(q);
                }
            }
            assert(delta_set(a, ss, cp) =~= Set::<int>::empty());
        } else {
            lemma_delta_decompose(a, ss, cp);
            match row_find_lit(row, 0, cp) {
                Some(t) => {
                    let j = choose|j: int|
                        0 <= j < row.len() && (#[trigger] row[j]).0 is Lit && sym_covers(
                            row[j].0,
                            cp,
                        ) && row[j].1 == t;
                    assert(row_sem(a, ss, states, row[j]));
                    assert(row[j].0->Lit_0 as int == cp);
                    assert(row_step(row, cp) == Some(t));
                },
                None => {
                    assert(!has_lit_edge(row, cp));
                    match row_find_range(row, 0, cp) {
                        Some(t) => {
                            let j = choose|j: int|
                                0 <= j < row.len() && (#[trigger] row[j]).0 is Range && sym_covers(
                                    row[j].0,
                                    cp,
                                ) && row[j].1 == t;
                            assert(row_sem(a, ss, states, row[j]));
                            let r = row[j].0;
                            assert(j >= litlen) by {
                                if j < litlen {
                                    assert(row[j].0 is Lit);
                                }
                            }
                            let er = (r->Range_0, r->Range_1);
                            assert(rngs.contains(er));
                            let ir = choose|i: int| 0 <= i < rngs.len() && rngs[i] == er;
                            assert forall|q: int| delta_set(a, ss, cp).contains(q) implies
                                delta_exact(a, ss, r).contains(q) by {
                                if delta_exact(a, ss, Sym::Lit(cp as u32)).contains(q) {
                                    let p = choose|p: int|
                                        #[trigger] ss.contains(p) && pos_symbol(a, p) == Some(
                                            Sym::Lit(cp as u32),
                                        ) && spec_followpos(a, p).contains(q);
                                    lemma_pos_set_iff(sv, p);
                                    let jj = choose|jj: int|
                                        0 <= jj < sv.len() && p == sv[jj] as int;
                                    lemma_litcps_upto_iff(a, sv, svn, cp);
                                    assert(pos_symbol(a, sv[jj] as int) == Some(
                                        Sym::Lit(cp as u32),
                                    ));
                                    assert(pos_set(lits).contains(cp));
                                    assert(delta_set(a, ss, cp) != Set::<int>::empty()) by {
                                        if delta_set(a, ss, cp) == Set::<int>::empty() {
                                            assert(!Set::<int>::empty().contains(q));
                                        }
                                    }
                                    assert(has_lit_edge(row, cp));
                                    assert(false);
                                } else {
                                    let r2 = choose|r2: Sym|
                                        #[trigger] sym_set(a, ss).contains(r2) && r2 is Range
                                            && sym_covers(r2, cp) && delta_exact(
                                            a,
                                            ss,
                                            r2,
                                        ).contains(q);
                                    let p2 = choose|p: int|
                                        #[trigger] ss.contains(p) && pos_symbol(a, p) == Some(r2);
                                    lemma_pos_set_iff(sv, p2);
                                    let jj2 = choose|jj: int|
                                        0 <= jj < sv.len() && p2 == sv[jj] as int;
                                    assert(pos_symbol(a, sv[jj2] as int) == Some(r2));
                                    let er2 = (r2->Range_0, r2->Range_1);
                                    assert(rngs.contains(er2));
                                    let i2 = choose|i: int| 0 <= i < rngs.len() && rngs[i] == er2;
                                    if i2 != ir {
                                        assert(ranges_disjoint(
                                            Sym::Range(rngs[ir].0, rngs[ir].1),
                                            Sym::Range(rngs[i2].0, rngs[i2].1),
                                        ));
                                        assert(sym_covers(r, cp) && sym_covers(r2, cp));
                                        assert(false);
                                    }
                                    assert(r2 == r);
                                }
                            }
                            assert forall|q: int| delta_exact(a, ss, r).contains(q) implies
                                delta_set(a, ss, cp).contains(q) by {}
                            assert(delta_set(a, ss, cp) =~= delta_exact(a, ss, r));
                            assert(row_step(row, cp) == Some(t));
                        },
                        None => {
                            assert forall|q: int| !delta_set(a, ss, cp).contains(q) by {
                                if delta_set(a, ss, cp).contains(q) {
                                    if delta_exact(a, ss, Sym::Lit(cp as u32)).contains(q) {
                                        let p = choose|p: int|
                                            #[trigger] ss.contains(p) && pos_symbol(a, p) == Some(
                                                Sym::Lit(cp as u32),
                                            ) && spec_followpos(a, p).contains(q);
                                        lemma_pos_set_iff(sv, p);
                                        let jj = choose|jj: int|
                                            0 <= jj < sv.len() && p == sv[jj] as int;
                                        lemma_litcps_upto_iff(a, sv, svn, cp);
                                        assert(pos_symbol(a, sv[jj] as int) == Some(
                                            Sym::Lit(cp as u32),
                                        ));
                                        assert(pos_set(lits).contains(cp));
                                        assert(delta_set(a, ss, cp) != Set::<int>::empty()) by {
                                            if delta_set(a, ss, cp) == Set::<int>::empty() {
                                                assert(!Set::<int>::empty().contains(q));
                                            }
                                        }
                                        assert(has_lit_edge(row, cp));
                                        assert(false);
                                    } else {
                                        let r2 = choose|r2: Sym|
                                            #[trigger] sym_set(a, ss).contains(r2) && r2 is Range
                                                && sym_covers(r2, cp) && delta_exact(
                                                a,
                                                ss,
                                                r2,
                                            ).contains(q);
                                        let p2 = choose|p: int|
                                            #[trigger] ss.contains(p) && pos_symbol(a, p) == Some(
                                                r2,
                                            );
                                        lemma_pos_set_iff(sv, p2);
                                        let jj2 = choose|jj: int|
                                            0 <= jj < sv.len() && p2 == sv[jj] as int;
                                        assert(pos_symbol(a, sv[jj2] as int) == Some(r2));
                                        let er2 = (r2->Range_0, r2->Range_1);
                                        assert(rngs.contains(er2));
                                        assert(delta_exact(a, ss, r2) != Set::<int>::empty()) by {
                                            if delta_exact(a, ss, r2) == Set::<int>::empty() {
                                                assert(!Set::<int>::empty().contains(q));
                                            }
                                        }
                                        assert(delta_exact(a, ss, Sym::Range(er2.0, er2.1))
                                            != Set::<int>::empty());
                                        assert(has_range_edge(row, litlen, er2));
                                        let k2 = choose|k: int|
                                            litlen <= k < row.len() && (#[trigger] row[k]).0
                                                == Sym::Range(er2.0, er2.1);
                                        assert(row[k2].0 is Range && sym_covers(row[k2].0, cp));
                                        assert(false);
                                    }
                                }
                            }
                            assert(delta_set(a, ss, cp) =~= Set::<int>::empty());
                        },
                    }
                },
            }
        }
    }
}

} // verus!

verus! {

/// Some earlier state's row targets state `t`.
pub open spec fn has_creator(rows: Seq<Vec<(Sym, usize)>>, done: int, t: int) -> bool {
    exists|s: int| 0 <= s < done && s < t && #[trigger] row_has_target(rows[s]@, t)
}

/// Some state with a smaller index has an edge into `t`.
pub open spec fn has_parent(d: Dfa, t: int) -> bool {
    exists|s: int| 0 <= s < t && #[trigger] row_has_target(d.transitions@[s]@, t)
}

/// Everything the subset construction guarantees of its output: valid
/// deterministic tables, canonical distinct position sets, the start
/// state's set equal to the root's firstpos, exact accept tags, a
/// non-accepting start state, agreement of every row with the
/// construction step on every input, an edge into every state but the
/// start from a smaller state, and per state: its set is reachable by
/// construction steps, holds no two distinct overlapping ranges, and
/// its edges carry the exact per-symbol steps, one edge per range
/// symbol with a nonempty step.
pub open spec fn create_states_ok(a: Seq<ArenaNode>, d: Dfa, sets: Seq<Vec<usize>>) -> bool {
    &&& d.wf()
    &&& d.start == 0
    &&& d.n() >= 1
    &&& sets.len() == d.n()
    &&& states_ok(a, sets)
    &&& accept_ok(a, sets, d.accept@)
    &&& pos_set(sets[0]@) == firstpos_at(a, a.len() - 1)
    &&& d.accept@[0] is None
    &&& (forall|s: int, cp: int|
        0 <= s < d.n() ==> #[trigger] step_matches(a, sets, pos_set(sets[s]@), d.transitions@[s]@, cp))
    &&& (forall|t: int| 0 < t < d.n() ==> #[trigger] has_parent(d, t))
    &&& (forall|s: int| 0 <= s < d.n() ==> #[trigger] set_reachable(a, pos_set(sets[s]@)))
    &&& (forall|s: int|
        0 <= s < d.n() ==> !#[trigger] state_has_overlap(a, pos_set(sets[s]@)))
    &&& (forall|s: int, k: int|
        0 <= s < d.n() && 0 <= k < d.transitions@[s]@.len() ==> row_sem(
            a,
            pos_set(sets[s]@),
            sets,
            #[trigger] d.transitions@[s]@[k],
        ))
    &&& (forall|s: int|
        0 <= s < d.n() ==> range_edges_complete(a, pos_set(sets[s]@), #[trigger] d.transitions@[s]@))
}

proof fn lemma_row_wf_mono(row: Seq<(Sym, usize)>, n1: int, n2: int)
    requires
        row_wf(row, n1),
        n1 <= n2,
    ensures
        row_wf(row, n2),
{
}

proof fn lemma_step_matches_mono(
    a: Seq<ArenaNode>,
    states1: Seq<Vec<usize>>,
    states2: Seq<Vec<usize>>,
    ss: Set<int>,
    row: Seq<(Sym, usize)>,
)
    requires
        forall|cp: int| #[trigger] step_matches(a, states1, ss, row, cp),
        states1.len() <= states2.len(),
        forall|k: int| 0 <= k < states1.len() ==> states2[k] == states1[k],
    ensures
        forall|cp: int| #[trigger] step_matches(a, states2, ss, row, cp),
{
    assert forall|cp: int| #[trigger] step_matches(a, states2, ss, row, cp) by {
        assert(step_matches(a, states1, ss, row, cp));
        match row_step(row, cp) {
            Some(t) => {
                assert(states2[t as int] == states1[t as int]);
            },
            None => {},
        }
    }
}

impl DirectAFD {
    /// Runs the direct subset construction: the start state is the
    /// root's firstpos set, and each state's transitions are derived by
    /// unioning followpos over its positions per edge symbol. Rejects a
    /// rule set whose start state would accept (an empty-word match)
    /// and states with overlapping distinct ranges.
    #[verifier::rlimit(60)]
    pub fn create_states(&self) -> (r: Result<(Dfa, Vec<Vec<usize>>), CompileError>)
        requires
            self.wf(),
        ensures
            match r {
                Ok(p) => create_states_ok(self.arena_spec(), p.0, p.1@),
                Err(e) => (e == CompileError::NullableRule || e == CompileError::AmbiguousRange)
                    && (e == CompileError::NullableRule <==> exists|p: int|
                    firstpos_at(self.arena_spec(), self.arena_spec().len() - 1).contains(p)
                        && #[trigger] sentinel_at(self.arena_spec(), p)) && (e
                    == CompileError::AmbiguousRange ==> reachable_overlap(self.arena_spec())),
            },
    {
        let (arena, root) = self.read_tree();
        let ghost a = arena@;
        let follow = self.find_followpos();
        let (fp, _lp) = self.find_first_last_pos();
        let n = arena.len();
        // The position-to-index table: leaves in arena order carry the
        // dense positions 1..N.
        let mut posidx: Vec<usize> = Vec::new();
        let mut i0: usize = 0;
        while i0 < n
            invariant
                n == arena@.len(),
                i0 <= n,
                posidx@.len() == pos_count(arena@, i0 as int),
                forall|p: int|
                    1 <= p <= posidx@.len() ==> (#[trigger] posidx@[p - 1]) < i0 && positioned(
                        arena@[posidx@[p - 1] as int].value,
                    ) && pos_of(arena@, posidx@[p - 1] as int) == p,
            decreases n - i0,
        {
            if matches!(arena[i0].value, Token::Literal(_) | Token::Range(_, _) | Token::Sentinel)
                {
                let ghost px0 = posidx@;
                posidx.push(i0);
                proof {
                    assert(pos_count(arena@, i0 + 1) == pos_count(arena@, i0 as int) + 1);
                    assert forall|p: int|
                        1 <= p <= posidx@.len() implies (#[trigger] posidx@[p - 1]) < i0 + 1
                        && positioned(arena@[posidx@[p - 1] as int].value) && pos_of(
                        arena@,
                        posidx@[p - 1] as int,
                    ) == p by {
                        if p <= px0.len() {
                            assert(posidx@[p - 1] == px0[p - 1]);
                        } else {
                            assert(posidx@[p - 1] == i0);
                        }
                    }
                }
            } else {
                proof {
                    assert(pos_count(arena@, i0 + 1) == pos_count(arena@, i0 as int));
                }
            }
            i0 = i0 + 1;
        }
        proof {
            assert(posidx_ok(a, posidx@));
        }
        let start_vec = copy_positions(&fp[root]);
        proof {
            lemma_firstpos_bounds(a, root as int);
            lemma_pos_count_mono(a, root + 1, a.len() as int);
        }
        // A rule that matches the empty word would put a sentinel in the
        // start state and make the scanner loop; reject it.
        let sn = start_vec.len();
        let mut k: usize = 0;
        while k < sn
            invariant
                sn == start_vec@.len(),
                k <= sn,
                start_vec@ == fp@[root as int]@,
                forall|k2: int| 0 <= k2 < k ==> !sentinel_at(a, #[trigger] start_vec@[k2] as int),
            decreases sn - k,
        {
            let p = start_vec[k];
            proof {
                lemma_pos_set_iff(start_vec@, p as int);
                assert(pos_set(start_vec@).contains(p as int)) by {
                    assert(start_vec@[k as int] == p);
                }
            }
            let is_sent = if p <= posidx.len() {
                matches!(arena[posidx[p - 1]].value, Token::Sentinel)
            } else {
                false
            };
            proof {
                lemma_posidx_symbol(a, posidx@, p as int);
                assert(sentinel_at(a, p as int) == is_sent);
            }
            if is_sent {
                proof {
                    assert(firstpos_at(a, a.len() - 1).contains(p as int));
                }
                return Err(CompileError::NullableRule);
            }
            k = k + 1;
        }
        proof {
            assert forall|p: int|
                firstpos_at(a, a.len() - 1).contains(p) implies !#[trigger] sentinel_at(
                a,
                p,
            ) by {
                lemma_pos_set_iff(start_vec@, p);
                let k2 = choose|k2: int| 0 <= k2 < start_vec@.len() && p == start_vec@[k2] as int;
                assert(!sentinel_at(a, start_vec@[k2] as int));
            }
        }
        let ghost start_view = start_vec@;
        proof {
            lemma_pos_count_le(a, a.len() as int);
            assert forall|j2: int| 0 <= j2 < start_view.len() implies 1 <= #[trigger] start_view[j2]
                <= arena@.len() by {
                lemma_pos_set_iff(start_view, start_view[j2] as int);
                assert(pos_set(start_view).contains(start_view[j2] as int));
            }
        }
        let mut states: Vec<Vec<usize>> = Vec::new();
        let mut accept: Vec<Option<usize>> = Vec::new();
        let s0 = lookup_or_push(&arena, &posidx, &mut states, &mut accept, start_vec);
        proof {
            assert(s0 == 0);
            assert(states@.len() == 1);
            assert(accept@[0] is None) by {
                if accept_tag(a, start_view, 0) is Some {
                    lemma_accept_tag_sentinel(a, start_view, 0);
                }
            }
            lemma_start_reachable(a);
            assert(set_reachable(a, pos_set(states@[0]@)));
        }
        let mut rows: Vec<Vec<(Sym, usize)>> = Vec::new();
        let mut done: usize = 0;
        while done < states.len()
            invariant
                arena@ == self.arena_spec(),
                arena_wf(a),
                n == a.len(),
                follow@.len() == n,
                forall|p: int|
                    1 <= p <= follow@.len() ==> sorted_strict(#[trigger] follow@[p - 1]@)
                        && pos_set(follow@[p - 1]@) == spec_followpos(a, p),
                states_ok(a, states@),
                accept_ok(a, states@, accept@),
                states@.len() >= 1,
                states@[0]@ == start_view,
                accept@[0] is None,
                done <= states@.len(),
                rows@.len() == done,
                forall|s: int| 0 <= s < done ==> row_wf(#[trigger] rows@[s]@, states@.len() as int),
                forall|s: int, cp: int|
                    0 <= s < done ==> #[trigger] step_matches(
                        a,
                        states@,
                        pos_set(states@[s]@),
                        rows@[s]@,
                        cp,
                    ),
                forall|t: int| 0 < t < states@.len() ==> #[trigger] has_creator(rows@, done as int, t),
                forall|k: int|
                    0 <= k < states@.len() ==> #[trigger] set_reachable(a, pos_set(states@[k]@)),
                forall|s: int|
                    0 <= s < done ==> !#[trigger] state_has_overlap(a, pos_set(states@[s]@)),
                forall|s: int, k: int|
                    0 <= s < done && 0 <= k < rows@[s]@.len() ==> row_sem(
                        a,
                        pos_set(states@[s]@),
                        states@,
                        #[trigger] rows@[s]@[k],
                    ),
                forall|s: int|
                    0 <= s < done ==> range_edges_complete(
                        a,
                        pos_set(states@[s]@),
                        #[trigger] rows@[s]@,
                    ),
            decreases pow2((n + 1) as nat) - done,
        {
            proof {
                lemma_states_capacity(a, states@);
            }
            let sv = copy_positions(&states[done]);
            proof {
                assert(set_reachable(a, pos_set(states@[done as int]@)));
                assert(sv@ == states@[done as int]@);
            }
            let ghost states0 = states@;
            let ghost rows0 = rows@;
            let rowr = build_row(&arena, &posidx, &follow, &sv, &mut states, &mut accept);
            let row = match rowr {
                Ok(row) => row,
                Err(e) => {
                    proof {
                        assert(state_has_overlap(a, pos_set(sv@)));
                        assert(set_reachable(a, pos_set(sv@)));
                        assert(reachable_overlap(a));
                    }
                    return Err(e);
                },
            };
            proof {
                lemma_states_capacity(a, states@);
                assert forall|s: int, cp: int| 0 <= s < done + 1 implies #[trigger] step_matches(
                    a,
                    states@,
                    pos_set(states@[s]@),
                    rows@.push(row)[s]@,
                    cp,
                ) by {
                    if s < done {
                        assert(rows@.push(row)[s] == rows@[s]);
                        assert(states@[s] == states0[s]);
                        lemma_step_matches_mono(
                            a,
                            states0,
                            states@,
                            pos_set(states0[s]@),
                            rows@[s]@,
                        );
                    } else {
                        assert(rows@.push(row)[s] == row);
                        assert(states@[s] == states0[s]);
                        assert(states0[s]@ == sv@);
                    }
                }
                assert forall|s: int| 0 <= s < done + 1 implies row_wf(
                    #[trigger] rows@.push(row)[s]@,
                    states@.len() as int,
                ) by {
                    if s < done {
                        assert(rows@.push(row)[s] == rows@[s]);
                        lemma_row_wf_mono(rows@[s]@, states0.len() as int, states@.len() as int);
                    } else {
                        assert(rows@.push(row)[s] == row);
                    }
                }
                assert forall|t: int| 0 < t < states@.len() implies #[trigger] has_creator(
                    rows@.push(row),
                    done + 1,
                    t,
                ) by {
                    if t < states0.len() {
                        assert(has_creator(rows0, done as int, t));
                        let s = choose|s: int|
                            0 <= s < done && s < t && #[trigger] row_has_target(rows0[s]@, t);
                        assert(rows@.push(row)[s] == rows0[s]);
                        assert(row_has_target(rows@.push(row)[s]@, t));
                    } else {
                        assert(row_has_target(row@, t));
                        assert(rows@.push(row)[done as int] == row);
                        assert(0 <= done < done + 1 && done < t && row_has_target(
                            rows@.push(row)[done as int]@,
                            t,
                        ));
                    }
                }
                assert forall|k2: int| 0 <= k2 < states@.len() implies #[trigger] set_reachable(
                    a,
                    pos_set(states@[k2]@),
                ) by {
                    if k2 < states0.len() {
                        assert(set_reachable(a, pos_set(states0[k2]@)));
                        assert(states@[k2] == states0[k2]);
                    }
                }
                assert forall|s: int| 0 <= s < done + 1 implies !#[trigger] state_has_overlap(
                    a,
                    pos_set(states@[s]@),
                ) by {
                    assert(states@[s] == states0[s]);
                    if s < done {
                        assert(!state_has_overlap(a, pos_set(states0[s]@)));
                    } else {
                        assert(states0[s]@ == sv@);
                    }
                }
                assert forall|s: int, k2: int|
                    0 <= s < done + 1 && 0 <= k2 < rows@.push(row)[s]@.len() implies row_sem(
                    a,
                    pos_set(states@[s]@),
                    states@,
                    #[trigger] rows@.push(row)[s]@[k2],
                ) by {
                    assert(states@[s] == states0[s]);
                    if s < done {
                        assert(rows@.push(row)[s] == rows@[s]);
                        assert(row_sem(a, pos_set(states0[s]@), states0, rows@[s]@[k2]));
                        let e = rows@[s]@[k2];
                        assert(e.1 < states0.len());
                        assert(states@[e.1 as int] == states0[e.1 as int]);
                    } else {
                        assert(rows@.push(row)[s] == row);
                        assert(states0[s]@ == sv@);
                        assert(row_sem(a, pos_set(sv@), states@, row@[k2]));
                    }
                }
                assert forall|s: int| 0 <= s < done + 1 implies range_edges_complete(
                    a,
                    pos_set(states@[s]@),
                    #[trigger] rows@.push(row)[s]@,
                ) by {
                    assert(states@[s] == states0[s]);
                    if s < done {
                        assert(rows@.push(row)[s] == rows@[s]);
                        assert(range_edges_complete(a, pos_set(states0[s]@), rows@[s]@));
                    } else {
                        assert(rows@.push(row)[s] == row);
                        assert(states0[s]@ == sv@);
                        assert(range_edges_complete(a, pos_set(sv@), row@));
                    }
                }
            }
            rows.push(row);
            done = done + 1;
        }
        let d = Dfa { transitions: rows, accept, start: 0 };
        proof {
            assert(d.wf());
            assert forall|t: int| 0 < t < d.n() implies #[trigger] has_parent(d, t) by {
                assert(has_creator(d.transitions@, done as int, t));
                let s = choose|s: int|
                    0 <= s < done && s < t && #[trigger] row_has_target(d.transitions@[s]@, t);
                assert(0 <= s < t && row_has_target(d.transitions@[s]@, t));
            }
        }
        Ok((d, states))
    }

    /// Runs the whole construction, from the stored syntax tree to the
    /// deterministic automaton and its canonical state sets.
    pub fn generate_afd(&self) -> (r: Result<(Dfa, Vec<Vec<usize>>), CompileError>)
        requires
            self.wf(),
        ensures
            match r {
                Ok(p) => create_states_ok(self.arena_spec(), p.0, p.1@),
                Err(e) => (e == CompileError::NullableRule || e == CompileError::AmbiguousRange)
                    && (e == CompileError::NullableRule <==> exists|p: int|
                    firstpos_at(self.arena_spec(), self.arena_spec().len() - 1).contains(p)
                        && #[trigger] sentinel_at(self.arena_spec(), p)) && (e
                    == CompileError::AmbiguousRange ==> reachable_overlap(self.arena_spec())),
            },
    {
        self.create_states()
    }
}

/// An accept tag names a sentinel member of the vector.
proof fn lemma_accept_tag_sentinel(a: Seq<ArenaNode>, sv: Seq<usize>, k: int)
    requires
        accept_tag(a, sv, k) is Some,
        0 <= k,
    ensures
        exists|k2: int| k <= k2 < sv.len() && #[trigger] sentinel_at(a, sv[k2] as int),
    decreases sv.len() - k,
{
    if k < sv.len() {
        if sentinel_at(a, sv[k] as int) {
            assert(sentinel_at(a, sv[k] as int));
        } else {
            lemma_accept_tag_sentinel(a, sv, k + 1);
            let k2 = choose|k2: int| k + 1 <= k2 < sv.len() && #[trigger] sentinel_at(
                a,
                sv[k2] as int,
            );
            assert(sentinel_at(a, sv[k2] as int));
        }
    }
}

/// A walk through the automaton's edges from the start state.
pub open spec fn dfa_path(d: Dfa, path: Seq<int>) -> bool {
    path.len() > 0 && path[0] == d.start && (forall|i: int|
        0 <= i < path.len() - 1 ==> 0 <= #[trigger] path[i] < d.n() && row_has_target(
            d.transitions@[path[i]]@,
            path[i + 1],
        ))
}

/// The state can be walked to from the start state.
pub open spec fn dfa_reachable(d: Dfa, t: int) -> bool {
    exists|path: Seq<int>| #[trigger] dfa_path(d, path) && path.last() == t
}

proof fn lemma_state_reachable(d: Dfa, t: int)
    requires
        d.wf(),
        d.start == 0,
        forall|t2: int| 0 < t2 < d.n() ==> #[trigger] has_parent(d, t2),
        0 <= t < d.n(),
    ensures
        dfa_reachable(d, t),
    decreases t,
{
    if t == 0 {
        let path = seq![0int];
        assert(dfa_path(d, path));
        assert(path.last() == t);
    } else {
        assert(has_parent(d, t));
        let s = choose|s: int| 0 <= s < t && #[trigger] row_has_target(d.transitions@[s]@, t);
        lemma_state_reachable(d, s);
        let path = choose|path: Seq<int>| #[trigger] dfa_path(d, path) && path.last() == s;
        let path2 = path.push(t);
        assert forall|i: int| 0 <= i < path2.len() - 1 implies 0 <= #[trigger] path2[i] < d.n()
            && row_has_target(d.transitions@[path2[i]]@, path2[i + 1]) by {
            if i < path.len() - 1 {
                assert(path2[i] == path[i] && path2[i + 1] == path[i + 1]);
            } else {
                assert(path2[i] == path.last() && path2[i + 1] == t);
            }
        }
        assert(dfa_path(d, path2));
        assert(path2.last() == t);
    }
}

/// Every state of a constructed automaton can be walked to from the
/// start state.
pub proof fn lemma_all_states_reachable(a: Seq<ArenaNode>, d: Dfa, sets: Seq<Vec<usize>>)
    requires
        create_states_ok(a, d, sets),
    ensures
        forall|t: int| 0 <= t < d.n() ==> #[trigger] dfa_reachable(d, t),
{
    assert forall|t: int| 0 <= t < d.n() implies #[trigger] dfa_reachable(d, t) by {
        lemma_state_reachable(d, t);
    }
}

} // verus!

verus! {

/// Whether the edge at index `k` fires on input `cp` under the match
/// rule: a literal edge fires when it equals the input; a range edge
/// fires when it covers the input and no literal edge equals it.
pub open spec fn edge_fires(row: Seq<(Sym, usize)>, k: int, cp: int) -> bool {
    0 <= k < row.len() && sym_covers(row[k].0, cp) && (row[k].0 is Range ==> !has_lit_edge(
        row,
        cp,
    ))
}

/// Determinism: on any input code point, at most one edge of a
/// well-formed row fires.
pub proof fn lemma_at_most_one_edge_fires(row: Seq<(Sym, usize)>, n: int, cp: int)
    requires
        row_wf(row, n),
    ensures
        forall|k1: int, k2: int|
            edge_fires(row, k1, cp) && edge_fires(row, k2, cp) ==> k1 == k2,
{
    assert forall|k1: int, k2: int|
        edge_fires(row, k1, cp) && edge_fires(row, k2, cp) implies k1 == k2 by {
        if k1 != k2 {
            if row[k1].0 is Lit && row[k2].0 is Lit {
                assert(row[k1].0 == row[k2].0);
                if k1 < k2 {
                    assert(sym_key(row[k1].0) < sym_key(row[k2].0));
                } else {
                    assert(sym_key(row[k2].0) < sym_key(row[k1].0));
                }
            } else if row[k1].0 is Lit {
                assert(row[k1].0 is Lit && sym_covers(row[k1].0, cp));
                assert(has_lit_edge(row, cp));
            } else if row[k2].0 is Lit {
                assert(row[k2].0 is Lit && sym_covers(row[k2].0, cp));
                assert(has_lit_edge(row, cp));
            } else {
                assert(ranges_disjoint(row[k1].0, row[k2].0));
            }
        }
    }
}

} // verus!

verus! {

/// A nonempty set holds some element.
proof fn lemma_nonempty_member(ss: Set<int>)
    requires
        ss != Set::<int>::empty(),
    ensures
        exists|q: int| ss.contains(q),
{
    if forall|q: int| !ss.contains(q) {
        assert(ss =~= Set::<int>::empty());
    }
}

proof fn lemma_chain_listed(
    a: Seq<ArenaNode>,
    d: Dfa,
    sets: Seq<Vec<usize>>,
    chain: Seq<Set<int>>,
    i: int,
)
    requires
        create_states_ok(a, d, sets),
        sets_chain(a, chain),
        0 <= i < chain.len(),
    ensures
        exists|s: int| 0 <= s < d.n() && pos_set(#[trigger] sets[s]@) == chain[i],
    decreases i,
{
    if i == 0 {
        assert(pos_set(sets[0]@) == firstpos_at(a, a.len() - 1));
        assert(0 <= 0 < d.n() && pos_set(sets[0]@) == chain[0]);
    } else {
        lemma_chain_listed(a, d, sets, chain, i - 1);
        let s = choose|s: int| 0 <= s < d.n() && pos_set(#[trigger] sets[s]@) == chain[i - 1];
        assert(construction_step(a, chain[i - 1], chain[(i - 1) + 1]) && chain[(i - 1) + 1]
            != Set::<int>::empty());
        assert(construction_step(a, chain[i - 1], chain[i]) && chain[i] != Set::<int>::empty());
        if exists|cp: int| chain[i] == #[trigger] delta_set(a, chain[i - 1], cp) {
            let cp = choose|cp: int| chain[i] == #[trigger] delta_set(a, chain[i - 1], cp);
            assert(step_matches(a, sets, pos_set(sets[s]@), d.transitions@[s]@, cp));
            match row_step(d.transitions@[s]@, cp) {
                Some(t) => {
                    assert(0 <= t < d.n() && pos_set(sets[t as int]@) == chain[i]);
                },
                None => {
                    assert(delta_set(a, pos_set(sets[s]@), cp) == Set::<int>::empty());
                    assert(false);
                },
            }
        } else {
            let (x, y) = choose|x: u32, y: u32|
                chain[i] == #[trigger] delta_exact(a, chain[i - 1], Sym::Range(x, y));
            // The exact step is nonempty, so some position of the set
            // carries exactly this range symbol.
            assert(exists|p: int|
                chain[i - 1].contains(p) && #[trigger] pos_symbol(a, p) == Some(
                    Sym::Range(x, y),
                )) by {
                lemma_nonempty_member(chain[i]);
                let q = choose|q: int| chain[i].contains(q);
                assert(delta_exact(a, chain[i - 1], Sym::Range(x, y)).contains(q));
                let p = choose|p: int|
                    #[trigger] chain[i - 1].contains(p) && pos_symbol(a, p) == Some(
                        Sym::Range(x, y),
                    ) && spec_followpos(a, p).contains(q);
                assert(pos_symbol(a, p) == Some(Sym::Range(x, y)));
            }
            assert(range_edges_complete(a, pos_set(sets[s]@), d.transitions@[s]@));
            assert(has_range_edge(d.transitions@[s]@, 0, (x, y)));
            let k = choose|k: int|
                0 <= k < d.transitions@[s]@.len() && (#[trigger] d.transitions@[s]@[k]).0
                    == Sym::Range(x, y);
            assert(row_sem(a, pos_set(sets[s]@), sets, d.transitions@[s]@[k]));
            let e = d.transitions@[s]@[k];
            assert(pos_set(sets[e.1 as int]@) == delta_exact(a, pos_set(sets[s]@), e.0));
            assert(0 <= e.1 < d.n() && pos_set(sets[e.1 as int]@) == chain[i]);
        }
    }
}

/// Every state set reachable by construction steps is one of the
/// constructed automaton's states.
pub proof fn lemma_reachable_sets_listed(
    a: Seq<ArenaNode>,
    d: Dfa,
    sets: Seq<Vec<usize>>,
    ss: Set<int>,
)
    requires
        create_states_ok(a, d, sets),
        set_reachable(a, ss),
    ensures
        exists|s: int| 0 <= s < d.n() && pos_set(#[trigger] sets[s]@) == ss,
{
    let chain = choose|chain: Seq<Set<int>>| #[trigger] sets_chain(a, chain) && chain.last() == ss;
    lemma_chain_listed(a, d, sets, chain, chain.len() - 1);
}

/// A successful construction leaves no reachable state set holding two
/// distinct overlapping range symbols: together with the error clause,
/// compilation fails with the range error exactly when some reachable
/// state would be ambiguous.
pub proof fn lemma_ok_no_reachable_overlap(a: Seq<ArenaNode>, d: Dfa, sets: Seq<Vec<usize>>)
    requires
        create_states_ok(a, d, sets),
    ensures
        !reachable_overlap(a),
{
    if reachable_overlap(a) {
        let ss = choose|ss: Set<int>| #[trigger] set_reachable(a, ss) && state_has_overlap(a, ss);
        lemma_reachable_sets_listed(a, d, sets, ss);
        let s = choose|s: int| 0 <= s < d.n() && pos_set(#[trigger] sets[s]@) == ss;
        assert(!state_has_overlap(a, pos_set(sets[s]@)));
        assert(false);
    }
}

} // verus!
