//! Combining rule pairs handed over by the rule-file adapter into one
//! regex source string, each action kept beside its pattern.

use vstd::prelude::*;

use crate::text::{chars_to_string, push_str_chars};

verus! {

/// One rule rendered as a parenthesized pattern-action pair.
pub open spec fn rule_piece(reg: Seq<char>, act: Seq<char>) -> Seq<char> {
    "(("@ + reg + ")({"@ + act + "}))"@
}

/// The concatenation of all rule pieces from index `i`, joined by `|`
/// when `joined` is set.
pub open spec fn pieces_from(
    acts: Seq<(String, String)>,
    i: int,
    acc: Seq<char>,
    joined: bool,
) -> Seq<char>
    decreases acts.len() - i,
{
    if i < 0 || i >= acts.len() {
        acc
    } else {
        let piece = rule_piece(acts[i].0@, acts[i].1@);
        let acc2 = if joined && i > 0 {
            acc + "|"@ + piece
        } else {
            acc + piece
        };
        pieces_from(acts, i + 1, acc2, joined)
    }
}

/// Appends one rendered rule piece to the buffer.
fn push_piece(buf: &mut Vec<char>, reg: &String, act: &String)
    ensures
        final(buf)@ == old(buf)@ + rule_piece(reg@, act@),
{
    push_str_chars(buf, "((");
    push_str_chars(buf, reg.as_str());
    push_str_chars(buf, ")({");
    push_str_chars(buf, act.as_str());
    push_str_chars(buf, "}))");
    proof {
        assert(buf@ =~= old(buf)@ + rule_piece(reg@, act@));
    }
}

/// Renders the rule pairs as one combined regex source, alternatives
/// joined by `|`.
pub fn gen_reg(acts: &Vec<(String, String)>) -> (r: String)
    ensures
        r@ == pieces_from(acts@, 0, Seq::empty(), true),
{
    let n = acts.len();
    let mut buf: Vec<char> = Vec::new();
    let mut i: usize = 0;
    while i < n
        invariant
            n == acts@.len(),
            i <= n,
            pieces_from(acts@, i as int, buf@, true) == pieces_from(
                acts@,
                0,
                Seq::<char>::empty(),
                true,
            ),
        decreases n - i,
    {
        let ghost acc0 = buf@;
        if i > 0 {
            push_str_chars(&mut buf, "|");
        }
        push_piece(&mut buf, &acts[i].0, &acts[i].1);
        proof {
            if i > 0 {
                assert(buf@ =~= acc0 + "|"@ + rule_piece(acts@[i as int].0@, acts@[i as int].1@));
            }
            assert(pieces_from(acts@, i as int, acc0, true) == pieces_from(
                acts@,
                i + 1,
                buf@,
                true,
            ));
        }
        i = i + 1;
    }
    chars_to_string(&buf)
}

/// Renders the rule pairs as one source with the pieces abutted, no
/// separator between them.
pub fn compile(acts: &Vec<(String, String)>) -> (r: String)
    ensures
        r@ == pieces_from(acts@, 0, Seq::empty(), false),
{
    let n = acts.len();
    let mut buf: Vec<char> = Vec::new();
    let mut i: usize = 0;
    while i < n
        invariant
            n == acts@.len(),
            i <= n,
            pieces_from(acts@, i as int, buf@, false) == pieces_from(
                acts@,
                0,
                Seq::<char>::empty(),
                false,
            ),
        decreases n - i,
    {
        let ghost acc0 = buf@;
        push_piece(&mut buf, &acts[i].0, &acts[i].1);
        proof {
            assert(pieces_from(acts@, i as int, acc0, false) == pieces_from(
                acts@,
                i + 1,
                buf@,
                false,
            ));
        }
        i = i + 1;
    }
    chars_to_string(&buf)
}

} // verus!
