//! The whole pipeline: a rule set's regexes are scanned, joined under
//! one alternation with a distinct end-marker per rule, desugared,
//! parsed, compiled into a DFA, and minimized.

use vstd::prelude::*;
use vstd::string::*;

use crate::direct_afd::{arena_of, create_states_ok, firstpos_at, reachable_overlap, sentinel_at, Dfa, DirectAFD};
use crate::errors::CompileError;
use crate::grammar_tree::{spec_build, Tree, TreeNode};
use crate::inf_to_pos::{spec_expand, spec_tokenize, spec_yard, tokenize, Token};
use crate::minimize::{minimize_dfa, minimized_ok};

verus! {

/// The views of a vector of rule sources.
pub open spec fn rules_view(v: Seq<String>) -> Seq<Seq<char>> {
    v.map_values(|s: String| s@)
}

/// The combined token stream of rules `i..`, appended to `acc`: each
/// rule is scanned, wrapped as a parenthesized group with its own
/// end-marker, and the rules are joined by the union operator.
pub open spec fn combined_stream(rules: Seq<Seq<char>>, i: int, acc: Seq<Token>) -> Result<
    Seq<Token>,
    CompileError,
>
    decreases rules.len() - i,
{
    if i < 0 || i >= rules.len() {
        Ok(acc)
    } else {
        match spec_tokenize(rules[i]) {
            None => Err(CompileError::InvalidRange),
            Some(t) => if t.contains(Token::Sentinel) {
                Err(CompileError::ReservedSentinel)
            } else {
                let piece = seq![Token::LParen] + t + seq![Token::RParen, Token::Sentinel];
                let acc2 = if i > 0 {
                    acc + seq![Token::Union] + piece
                } else {
                    acc + piece
                };
                combined_stream(rules, i + 1, acc2)
            },
        }
    }
}

/// The syntax tree a rule set compiles to, or its first compile error.
pub open spec fn spec_rule_pipeline(rules: Seq<Seq<char>>) -> Result<TreeNode, CompileError> {
    match combined_stream(rules, 0, Seq::empty()) {
        Err(e) => Err(e),
        Ok(full) => match spec_expand(full) {
            None => Err(CompileError::MalformedExpression),
            Some(ex) => match spec_yard(ex) {
                None => Err(CompileError::UnbalancedParens),
                Some(post) => match spec_build(post) {
                    None => Err(CompileError::MalformedExpression),
                    Some(t) => Ok(t),
                },
            },
        },
    }
}

/// The returned automaton is the minimized quotient of the DFA that the
/// direct construction builds from the rule set's syntax tree.
pub open spec fn generated_ok(rules: Seq<Seq<char>>, m: Dfa) -> bool {
    exists|w: (TreeNode, Dfa, Seq<Vec<usize>>, Seq<usize>)|
        #![trigger create_states_ok(arena_of(w.0, 0), w.1, w.2), minimized_ok(w.1, m, w.3)]
        spec_rule_pipeline(rules) == Ok::<TreeNode, CompileError>(w.0) && create_states_ok(
            arena_of(w.0, 0),
            w.1,
            w.2,
        ) && minimized_ok(w.1, m, w.3)
}

/// Compiles a rule set, one regex source per rule with 1-based tags in
/// declaration order, into a minimized scanner automaton.
pub fn generate(rules: &Vec<String>) -> (r: Result<Dfa, CompileError>)
    ensures
        match r {
            Ok(m) => m.wf() && generated_ok(rules_view(rules@), m),
            Err(e) => spec_rule_pipeline(rules_view(rules@)) == Err::<TreeNode, CompileError>(e)
                || (exists|t: TreeNode|
                spec_rule_pipeline(rules_view(rules@)) == Ok::<TreeNode, CompileError>(t) && (e
                    == CompileError::NullableRule || e == CompileError::AmbiguousRange) && (e
                    == CompileError::NullableRule <==> exists|p: int|
                    firstpos_at(#[trigger] arena_of(t, 0), arena_of(t, 0).len() - 1).contains(p)
                        && #[trigger] sentinel_at(arena_of(t, 0), p)) && (e
                    == CompileError::AmbiguousRange ==> reachable_overlap(arena_of(t, 0)))),
        },
{
    let ghost rv = rules_view(rules@);
    let rn = rules.len();
    let mut full: Vec<Token> = Vec::new();
    let mut i: usize = 0;
    while i < rn
        invariant
            rn == rules@.len(),
            i <= rn,
            combined_stream(rv, i as int, full@) == combined_stream(
                rv,
                0,
                Seq::<Token>::empty(),
            ),
        decreases rn - i,
    {
        let ghost acc0 = full@;
        let toks = match tokenize(rules[i].as_str()) {
            Ok(t) => t,
            Err(e) => {
                proof {
                    assert(rv[i as int] == rules@[i as int]@);
                    assert(combined_stream(rv, i as int, acc0) == Err::<Seq<Token>, CompileError>(
                        CompileError::InvalidRange,
                    ));
                }
                return Err(e);
            },
        };
        let tn = toks.len();
        let mut k: usize = 0;
        while k < tn
            invariant
                tn == toks@.len(),
                k <= tn,
                forall|h: int| 0 <= h < k ==> toks@[h] != Token::Sentinel,
            decreases tn - k,
        {
            if toks[k] == Token::Sentinel {
                proof {
                    assert(toks@[k as int] == Token::Sentinel);
                    assert(toks@.contains(Token::Sentinel));
                    assert(rv[i as int] == rules@[i as int]@);
                    assert(combined_stream(rv, i as int, acc0) == Err::<Seq<Token>, CompileError>(
                        CompileError::ReservedSentinel,
                    ));
                }
                return Err(CompileError::ReservedSentinel);
            }
            k = k + 1;
        }
        proof {
            assert(!toks@.contains(Token::Sentinel));
        }
        if i > 0 {
            full.push(Token::Union);
        }
        full.push(Token::LParen);
        let mut k2: usize = 0;
        let ghost mid = full@;
        while k2 < tn
            invariant
                tn == toks@.len(),
                k2 <= tn,
                full@ == mid + toks@.take(k2 as int),
            decreases tn - k2,
        {
            let t = toks[k2];
            full.push(t);
            proof {
                assert(full@ =~= mid + toks@.take(k2 + 1));
            }
            k2 = k2 + 1;
        }
        full.push(Token::RParen);
        full.push(Token::Sentinel);
        proof {
            assert(rv[i as int] == rules@[i as int]@);
            let piece = seq![Token::LParen] + toks@ + seq![Token::RParen, Token::Sentinel];
            assert(toks@.take(tn as int) =~= toks@);
            if i > 0 {
                assert(full@ =~= acc0 + seq![Token::Union] + piece);
            } else {
                assert(full@ =~= acc0 + piece);
            }
            assert(combined_stream(rv, i as int, acc0) == combined_stream(rv, i + 1, full@));
        }
        i = i + 1;
    }
    let expanded = match crate::inf_to_pos::expand(&full) {
        Ok(v) => v,
        Err(e) => {
            return Err(e);
        },
    };
    let post = match crate::inf_to_pos::shunting_yard(expanded) {
        Ok(v) => v,
        Err(e) => {
            return Err(e);
        },
    };
    let mut builder = Tree::new();
    let tree = match builder.generate(post) {
        Ok(t) => t,
        Err(e) => {
            return Err(e);
        },
    };
    let ghost tree_g = tree;
    let afd = DirectAFD::new(tree);
    let (d0, sets) = match afd.create_states() {
        Ok(p) => p,
        Err(e) => {
            proof {
                assert(spec_rule_pipeline(rv) == Ok::<TreeNode, CompileError>(tree_g));
                assert(afd.arena_spec() == arena_of(tree_g, 0));
                assert(exists|t: TreeNode|
                    spec_rule_pipeline(rv) == Ok::<TreeNode, CompileError>(t) && (e
                        == CompileError::NullableRule || e == CompileError::AmbiguousRange) && (e
                        == CompileError::NullableRule <==> exists|p: int|
                        firstpos_at(#[trigger] arena_of(t, 0), arena_of(t, 0).len() - 1).contains(
                            p,
                        ) && #[trigger] sentinel_at(arena_of(t, 0), p)) && (e
                        == CompileError::AmbiguousRange ==> reachable_overlap(arena_of(t, 0)))) by {
                    assert(spec_rule_pipeline(rv) == Ok::<TreeNode, CompileError>(tree_g) && (e
                        == CompileError::NullableRule || e == CompileError::AmbiguousRange) && (e
                        == CompileError::NullableRule <==> exists|p: int|
                        firstpos_at(
                            #[trigger] arena_of(tree_g, 0),
                            arena_of(tree_g, 0).len() - 1,
                        ).contains(p) && #[trigger] sentinel_at(arena_of(tree_g, 0), p)) && (e
                        == CompileError::AmbiguousRange ==> reachable_overlap(arena_of(tree_g, 0))));
                }
            }
            return Err(e);
        },
    };
    let (m, blk) = minimize_dfa(&d0);
    proof {
        assert(generated_ok(rv, m)) by {
            let w = (tree_g, d0, sets@, blk@);
            assert(spec_rule_pipeline(rv) == Ok::<TreeNode, CompileError>(w.0)
                && create_states_ok(arena_of(w.0, 0), w.1, w.2) && minimized_ok(w.1, m, w.3));
        }
    }
    Ok(m)
}

} // verus!
