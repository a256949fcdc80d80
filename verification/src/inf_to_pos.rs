//! Regex surface syntax: scanning a regex source string into a token
//! stream, desugaring `?` and `+`, inserting explicit concatenation
//! markers, and converting infix to postfix by the shunting-yard method.

use vstd::prelude::*;
use vstd::string::*;

use crate::errors::CompileError;

verus! {

/// One token of the regex surface syntax.
#[derive(Clone, Copy, Debug, PartialEq, Eq, Structural)]
pub enum Token {
    /// `*`, zero or more repetitions.
    Kleene,
    /// `|`, union of two alternatives.
    Union,
    /// `+`, one or more repetitions; rewritten away by desugaring.
    Plus,
    /// Explicit concatenation marker, inserted by desugaring.
    Concat,
    /// A single character matched literally.
    Literal(char),
    /// A character range `[a-b]` with both bounds in the same script.
    Range(char, char),
    /// `(`.
    LParen,
    /// `)`.
    RParen,
    /// `#`, the end-marker appended to each rule; reserved.
    Sentinel,
    /// The empty word; produced when `?` is rewritten to a union.
    Empty,
    /// `?`, zero or one occurrence; rewritten away by desugaring.
    Optional,
}

/// Whether the character counts as a letter for range bounds.
/// Names what `char::is_alphabetic` returns.
pub uninterp spec fn char_is_letter(c: char) -> bool;

/// Whether the character counts as a digit for range bounds.
/// Names what `char::is_numeric` returns.
pub uninterp spec fn char_is_digit(c: char) -> bool;

/// Relies on char::is_alphabetic: true exactly on characters with the
/// Unicode `Alphabetic` property, a function of the character alone.
#[verifier::external_body]
fn is_letter(c: char) -> (r: bool)
    ensures
        r == char_is_letter(c),
{
    c.is_alphabetic()
}

/// Relies on char::is_numeric: true exactly on characters with a Unicode
/// numeric general category, a function of the character alone.
#[verifier::external_body]
fn is_numeric(c: char) -> (r: bool)
    ensures
        r == char_is_digit(c),
{
    c.is_numeric()
}

/// A bracket expression `[a-b]` is valid when the bounds are in order and
/// both are letters or both are digits.
pub open spec fn range_ok(a: char, b: char) -> bool {
    a as u32 <= b as u32 && ((char_is_letter(a) && char_is_letter(b)) || (char_is_digit(a)
        && char_is_digit(b)))
}

/// Decides whether `[start-end]` is a well-formed range.
pub fn check_range(start: char, end: char) -> (r: bool)
    ensures
        r == range_ok(start, end),
{
    if (start as u32) > (end as u32) {
        return false;
    }
    let both_letter = is_letter(start) && is_letter(end);
    let both_digit = is_numeric(start) && is_numeric(end);
    both_letter || both_digit
}

/// The token that a single unescaped character scans to.
pub open spec fn operator_token(c: char) -> Token {
    if c == '?' {
        Token::Optional
    } else if c == '#' {
        Token::Sentinel
    } else if c == '*' {
        Token::Kleene
    } else if c == '|' {
        Token::Union
    } else if c == '+' {
        Token::Plus
    } else if c == '(' {
        Token::LParen
    } else if c == ')' {
        Token::RParen
    } else {
        Token::Literal(c)
    }
}

fn op_token(c: char) -> (t: Token)
    ensures
        t == operator_token(c),
{
    if c == '?' {
        Token::Optional
    } else if c == '#' {
        Token::Sentinel
    } else if c == '*' {
        Token::Kleene
    } else if c == '|' {
        Token::Union
    } else if c == '+' {
        Token::Plus
    } else if c == '(' {
        Token::LParen
    } else if c == ')' {
        Token::RParen
    } else {
        Token::Literal(c)
    }
}

/// The token stream that the suffix of `s` starting at `i` scans to.
/// `None` marks a malformed bracket expression. A trailing backslash is
/// dropped. `\x` always yields a literal for `x`.
pub open spec fn toks_from(s: Seq<char>, i: int) -> Option<Seq<Token>>
    decreases s.len() - i,
{
    if i < 0 || i >= s.len() {
        Some(Seq::empty())
    } else if s[i] == '\\' {
        if i + 1 < s.len() {
            match toks_from(s, i + 2) {
                Some(t) => Some(seq![Token::Literal(s[i + 1])] + t),
                None => None,
            }
        } else {
            Some(Seq::empty())
        }
    } else if s[i] == '[' {
        if i + 4 < s.len() && s[i + 2] == '-' && s[i + 4] == ']' && range_ok(s[i + 1], s[i + 3]) {
            match toks_from(s, i + 5) {
                Some(t) => Some(seq![Token::Range(s[i + 1], s[i + 3])] + t),
                None => None,
            }
        } else {
            None
        }
    } else {
        match toks_from(s, i + 1) {
            Some(t) => Some(seq![operator_token(s[i])] + t),
            None => None,
        }
    }
}

/// The whole string's token stream, or `None` on a malformed bracket.
pub open spec fn spec_tokenize(s: Seq<char>) -> Option<Seq<Token>> {
    toks_from(s, 0)
}

/// Relates the whole scan to a prefix already emitted and the scan of the
/// remaining suffix.
pub open spec fn toks_glue(full: Option<Seq<Token>>, pre: Seq<Token>, rest: Option<
    Seq<Token>,
>) -> bool {
    match rest {
        Some(t) => full == Some(pre + t),
        None => full is None,
    }
}

proof fn lemma_cons_assoc(pre: Seq<Token>, x: Token, rest: Seq<Token>)
    ensures
        pre + (seq![x] + rest) == pre.push(x) + rest,
{
    assert(pre + (seq![x] + rest) =~= pre.push(x) + rest);
}

/// Copies the characters of a string slice into a vector.
fn to_char_vec(s: &str) -> (v: Vec<char>)
    ensures
        v@ == s@,
{
    let n = s.unicode_len();
    let mut v: Vec<char> = Vec::new();
    let mut i: usize = 0;
    while i < n
        invariant
            n == s@.len(),
            i <= n,
            v@ == s@.take(i as int),
        decreases n - i,
    {
        let c = s.get_char(i);
        v.push(c);
        proof {
            assert(v@ =~= s@.take(i + 1 as int));
        }
        i = i + 1;
    }
    proof {
        assert(v@ =~= s@);
    }
    v
}

/// Scans a regex source string into its token stream.
///
/// Escapes `\x` yield literals; `[a-b]` yields a range token and is the
/// only construct that can fail.
pub fn tokenize(input: &str) -> (r: Result<Vec<Token>, CompileError>)
    ensures
        match r {
            Ok(v) => spec_tokenize(input@) == Some(v@),
            Err(e) => spec_tokenize(input@) is None && e == CompileError::InvalidRange,
        },
{
    let v = to_char_vec(input);
    let n = v.len();
    let mut out: Vec<Token> = Vec::new();
    let mut i: usize = 0;
    while i < n
        invariant
            n == v@.len(),
            v@ == input@,
            i <= n,
            toks_glue(toks_from(v@, 0), out@, toks_from(v@, i as int)),
        decreases n - i,
    {
        let c = v[i];
        if c == '\\' {
            if i + 1 < n {
                let lit = v[i + 1];
                proof {
                    let tok = Token::Literal(v@[i + 1]);
                    match toks_from(v@, i + 2) {
                        Some(t) => {
                            assert(toks_from(v@, i as int) == Some(seq![tok] + t));
                            lemma_cons_assoc(out@, tok, t);
                        },
                        None => {
                            assert(toks_from(v@, i as int) is None);
                        },
                    }
                }
                out.push(Token::Literal(lit));
                i = i + 2;
            } else {
                proof {
                    assert(toks_from(v@, i as int) == Some(Seq::<Token>::empty()));
                    assert(toks_from(v@, i + 1) == Some(Seq::<Token>::empty()));
                }
                i = i + 1;
            }
        } else if c == '[' {
            if n - i > 4 && v[i + 2] == '-' && v[i + 4] == ']' && check_range(v[i + 1], v[i + 3]) {
                let a = v[i + 1];
                let b = v[i + 3];
                proof {
                    let tok = Token::Range(v@[i + 1], v@[i + 3]);
                    match toks_from(v@, i + 5) {
                        Some(t) => {
                            assert(toks_from(v@, i as int) == Some(seq![tok] + t));
                            lemma_cons_assoc(out@, tok, t);
                        },
                        None => {
                            assert(toks_from(v@, i as int) is None);
                        },
                    }
                }
                out.push(Token::Range(a, b));
                i = i + 5;
            } else {
                proof {
                    assert(toks_from(v@, i as int) is None);
                }
                return Err(CompileError::InvalidRange);
            }
        } else {
            let t = op_token(c);
            proof {
                let tok = operator_token(v@[i as int]);
                match toks_from(v@, i + 1) {
                    Some(rest) => {
                        assert(toks_from(v@, i as int) == Some(seq![tok] + rest));
                        lemma_cons_assoc(out@, tok, rest);
                    },
                    None => {
                        assert(toks_from(v@, i as int) is None);
                    },
                }
            }
            out.push(t);
            i = i + 1;
        }
    }
    proof {
        assert(toks_from(v@, i as int) == Some(Seq::<Token>::empty()));
        assert(out@ + Seq::<Token>::empty() =~= out@);
    }
    Ok(out)
}

/// Whether `t` stands for an operand leaf: a literal, a range, the
/// sentinel, or the empty word.
pub open spec fn is_atom(t: Token) -> bool {
    t is Literal || t is Range || t is Sentinel || t is Empty
}

/// The pairs of adjacent tokens between which an explicit concatenation
/// marker belongs: atom before atom, atom before `(`, `)` before atom,
/// a closure operator before an atom or `(`, and `)` before `(`.
pub open spec fn spec_implicit_concat(prev: Token, next: Token) -> bool {
    (is_atom(prev) && is_atom(next)) || (is_atom(prev) && next is LParen) || (prev is RParen
        && is_atom(next)) || ((prev is Kleene || prev is Plus) && is_atom(next)) || ((
    prev is Kleene || prev is Plus) && next is LParen) || (prev is RParen && next is LParen)
}

/// Decides whether a concatenation marker is inserted between `prev` and
/// `next`.
pub fn implicit_concat(prev: &Token, next: &Token) -> (r: bool)
    ensures
        r == spec_implicit_concat(*prev, *next),
{
    let p_atom = matches!(prev, Token::Literal(_) | Token::Range(_, _) | Token::Sentinel
        | Token::Empty);
    let n_atom = matches!(next, Token::Literal(_) | Token::Range(_, _) | Token::Sentinel
        | Token::Empty);
    let p_star = matches!(prev, Token::Kleene | Token::Plus);
    (p_atom && n_atom) || (p_atom && matches!(next, Token::LParen)) || (matches!(
        prev,
        Token::RParen,
    ) && n_atom) || (p_star && n_atom) || (p_star && matches!(next, Token::LParen)) || (matches!(
        prev,
        Token::RParen,
    ) && matches!(next, Token::LParen))
}

/// Operator binding strength: closures bind tightest, then concatenation,
/// then union; everything else has no binding strength.
pub open spec fn spec_prec(t: Token) -> int {
    match t {
        Token::Kleene => 3,
        Token::Plus => 3,
        Token::Concat => 2,
        Token::Union => 1,
        _ => 0,
    }
}

/// Returns the binding strength used by the shunting-yard conversion.
pub fn precedence(token: &Token) -> (r: usize)
    ensures
        r as int == spec_prec(*token),
{
    match token {
        Token::Kleene => 3,
        Token::Plus => 3,
        Token::Concat => 2,
        Token::Union => 1,
        _ => 0,
    }
}

/// The index of the matching `(` for a `)` at index `i`, scanning left
/// with `depth` unmatched `)` seen so far.
pub open spec fn paren_start(q: Seq<Token>, i: int, depth: int) -> Option<int>
    decreases i + 1,
{
    if i < 0 || i >= q.len() {
        None
    } else if q[i] is RParen {
        paren_start(q, i - 1, depth + 1)
    } else if q[i] is LParen {
        if depth == 1 {
            Some(i)
        } else {
            paren_start(q, i - 1, depth - 1)
        }
    } else {
        paren_start(q, i - 1, depth)
    }
}

/// The start index of the operand unit that ends just before index `end`:
/// a single atom, a balanced group, or either one followed by stars.
pub open spec fn unit_start_at(q: Seq<Token>, end: int) -> Option<int>
    decreases end,
{
    if end <= 0 || end > q.len() {
        None
    } else if is_atom(q[end - 1]) {
        Some(end - 1)
    } else if q[end - 1] is RParen {
        paren_start(q, end - 1, 0)
    } else if q[end - 1] is Kleene {
        unit_start_at(q, end - 1)
    } else {
        None
    }
}

/// The start index of the trailing operand unit of `q`.
pub open spec fn unit_start(q: Seq<Token>) -> Option<int> {
    unit_start_at(q, q.len() as int)
}

proof fn lemma_paren_start_bounds(q: Seq<Token>, i: int, depth: int)
    ensures
        paren_start(q, i, depth) matches Some(j) ==> 0 <= j <= i,
    decreases i + 1,
{
    if 0 <= i < q.len() {
        lemma_paren_start_bounds(q, i - 1, depth + 1);
        lemma_paren_start_bounds(q, i - 1, depth - 1);
        lemma_paren_start_bounds(q, i - 1, depth);
    }
}

pub proof fn lemma_unit_start_bounds(q: Seq<Token>, end: int)
    ensures
        unit_start_at(q, end) matches Some(j) ==> 0 <= j < end && end <= q.len(),
    decreases end,
{
    if 0 < end <= q.len() {
        lemma_paren_start_bounds(q, end - 1, 0);
        lemma_unit_start_bounds(q, end - 1);
    }
}

/// Finds the start of the trailing operand unit, if the queue ends in one.
fn find_unit_start(q: &Vec<Token>) -> (r: Option<usize>)
    ensures
        match r {
            Some(j) => unit_start(q@) == Some(j as int) && j < q.len(),
            None => unit_start(q@) is None,
        },
{
    let mut end: usize = q.len();
    while end > 0 && q[end - 1] == Token::Kleene
        invariant
            end <= q.len(),
            unit_start_at(q@, end as int) == unit_start(q@),
        decreases end,
    {
        proof {
            assert(unit_start_at(q@, end as int) == unit_start_at(q@, end - 1));
        }
        end = end - 1;
    }
    if end == 0 {
        return None;
    }
    let last = q[end - 1];
    proof {
        lemma_unit_start_bounds(q@, end as int);
    }
    if matches!(last, Token::Literal(_) | Token::Range(_, _) | Token::Sentinel | Token::Empty) {
        Some(end - 1)
    } else if matches!(last, Token::RParen) {
        proof {
            assert(unit_start(q@) == paren_start(q@, end - 1, 0));
            assert(paren_start(q@, end - 1, 0) == paren_start(q@, end - 2, 1));
        }
        if end == 1 {
            proof {
                assert(paren_start(q@, -1, 1) is None);
            }
            return None;
        }
        let mut i: usize = end - 2;
        let mut depth: usize = 1;
        loop
            invariant
                i < end - 1,
                end <= q.len(),
                1 <= depth <= end - i,
                paren_start(q@, i as int, depth as int) == unit_start(q@),
            decreases i + 1,
        {
            let t = q[i];
            if matches!(t, Token::LParen) && depth == 1 {
                proof {
                    assert(paren_start(q@, i as int, 1) == Some(i as int));
                }
                return Some(i);
            }
            if i == 0 {
                proof {
                    reveal_with_fuel(paren_start, 2);
                    assert(paren_start(q@, 0, depth as int) is None);
                }
                return None;
            }
            let new_depth: usize = if matches!(t, Token::RParen) {
                depth + 1
            } else if matches!(t, Token::LParen) {
                depth - 1
            } else {
                depth
            };
            proof {
                assert(paren_start(q@, i as int, depth as int) == paren_start(
                    q@,
                    i as int - 1,
                    new_depth as int,
                ));
            }
            depth = new_depth;
            i = i - 1;
        }
    } else {
        None
    }
}

/// Appends `src[from..to]` to `dst`.
fn push_range(dst: &mut Vec<Token>, src: &Vec<Token>, from: usize, to: usize)
    requires
        from <= to <= src.len(),
    ensures
        final(dst)@ == old(dst)@ + src@.subrange(from as int, to as int),
{
    let mut k: usize = from;
    while k < to
        invariant
            from <= k <= to <= src.len(),
            dst@ == old(dst)@ + src@.subrange(from as int, k as int),
        decreases to - k,
    {
        let t = src[k];
        dst.push(t);
        proof {
            assert(old(dst)@ + src@.subrange(from as int, k as int) + seq![src@[k as int]] =~= old(
                dst,
            )@ + src@.subrange(from as int, k + 1 as int));
        }
        k = k + 1;
    }
    proof {
        assert(dst@ =~= old(dst)@ + src@.subrange(from as int, to as int));
    }
}

/// The queue after one desugaring step: `?` wraps the preceding unit into
/// a union with the empty word, `+` duplicates it under a star, `+` after
/// a star is dropped, and stray markers are dropped.
pub open spec fn expand_step(q: Seq<Token>, t: Token) -> Option<Seq<Token>> {
    match t {
        Token::Optional => match unit_start(q) {
            Some(j) => Some(
                q.take(j) + seq![Token::LParen] + q.skip(j) + seq![
                    Token::Union,
                    Token::Empty,
                    Token::RParen,
                ],
            ),
            None => None,
        },
        Token::Plus => {
            if q.len() > 0 && q[q.len() - 1] is Kleene {
                Some(q)
            } else {
                match unit_start(q) {
                    Some(j) => Some(q + q.skip(j) + seq![Token::Kleene]),
                    None => None,
                }
            }
        },
        Token::Concat => Some(q),
        Token::Empty => Some(q),
        _ => Some(q.push(t)),
    }
}

/// Runs desugaring steps over `s[i..]` starting from queue `q`.
pub open spec fn expand_from(s: Seq<Token>, i: int, q: Seq<Token>) -> Option<Seq<Token>>
    decreases s.len() - i,
{
    if i < 0 || i >= s.len() {
        Some(q)
    } else {
        match expand_step(q, s[i]) {
            Some(q2) => expand_from(s, i + 1, q2),
            None => None,
        }
    }
}

/// Inserts concatenation markers between adjacent tokens of `s[i..]`,
/// extending `out`, whose last element is the previously copied token.
pub open spec fn concat_mark_from(s: Seq<Token>, i: int, out: Seq<Token>) -> Seq<Token>
    decreases s.len() - i,
{
    if i < 0 || i >= s.len() {
        out
    } else {
        let out2 = if out.len() > 0 && spec_implicit_concat(out[out.len() - 1], s[i]) {
            out + seq![Token::Concat, s[i]]
        } else {
            out.push(s[i])
        };
        concat_mark_from(s, i + 1, out2)
    }
}

/// The desugared stream: operator rewrites, then concatenation markers.
pub open spec fn spec_expand(s: Seq<Token>) -> Option<Seq<Token>> {
    match expand_from(s, 0, Seq::empty()) {
        Some(q) => Some(concat_mark_from(q, 0, Seq::empty())),
        None => None,
    }
}

/// Rewrites `?` and `+` and inserts explicit concatenation markers.
///
/// `X?` becomes `(X|ε)` and `X+` becomes `XX*`, where `X` is the
/// preceding atom, balanced group, or starred unit; `+` directly after a
/// star is dropped. Fails when `?` or `+` has no preceding operand.
pub fn expand(tokens: &Vec<Token>) -> (r: Result<Vec<Token>, CompileError>)
    ensures
        match r {
            Ok(v) => spec_expand(tokens@) == Some(v@),
            Err(e) => spec_expand(tokens@) is None && e == CompileError::MalformedExpression,
        },
{
    let n = tokens.len();
    let mut q: Vec<Token> = Vec::new();
    let mut i: usize = 0;
    while i < n
        invariant
            n == tokens@.len(),
            i <= n,
            expand_from(tokens@, i as int, q@) == expand_from(tokens@, 0, Seq::<Token>::empty()),
        decreases n - i,
    {
        let t = tokens[i];
        let ghost q0 = q@;
        match t {
            Token::Optional => {
                match find_unit_start(&q) {
                    Some(j) => {
                        let mut nq: Vec<Token> = Vec::new();
                        push_range(&mut nq, &q, 0, j);
                        nq.push(Token::LParen);
                        push_range(&mut nq, &q, j, q.len());
                        nq.push(Token::Union);
                        nq.push(Token::Empty);
                        nq.push(Token::RParen);
                        proof {
                            assert(q0.subrange(0, j as int) =~= q0.take(j as int));
                            assert(q0.subrange(j as int, q0.len() as int) =~= q0.skip(j as int));
                            assert(nq@ =~= q0.take(j as int) + seq![Token::LParen] + q0.skip(
                                j as int,
                            ) + seq![Token::Union, Token::Empty, Token::RParen]);
                        }
                        q = nq;
                    },
                    None => {
                        proof {
                            assert(expand_step(q@, t) is None);
                            assert(expand_from(tokens@, i as int, q@) is None);
                        }
                        return Err(CompileError::MalformedExpression);
                    },
                }
            },
            Token::Plus => {
                let starred = q.len() > 0 && q[q.len() - 1] == Token::Kleene;
                if !starred {
                    match find_unit_start(&q) {
                        Some(j) => {
                            let m = q.len();
                            let mut seg: Vec<Token> = Vec::new();
                            push_range(&mut seg, &q, j, m);
                            let mut k: usize = 0;
                            let segn = seg.len();
                            while k < segn
                                invariant
                                    segn == seg@.len(),
                                    k <= segn,
                                    q@ == q0 + seg@.take(k as int),
                                decreases segn - k,
                            {
                                let c = seg[k];
                                q.push(c);
                                proof {
                                    assert(q0 + seg@.take(k as int) + seq![seg@[k as int]] =~= q0
                                        + seg@.take(k + 1 as int));
                                }
                                k = k + 1;
                            }
                            q.push(Token::Kleene);
                            proof {
                                assert(seg@.take(segn as int) =~= seg@);
                                assert(seg@ =~= q0.skip(j as int));
                                assert(q@ =~= q0 + q0.skip(j as int) + seq![Token::Kleene]);
                            }
                        },
                        None => {
                            proof {
                                assert(expand_step(q@, t) is None);
                                assert(expand_from(tokens@, i as int, q@) is None);
                            }
                            return Err(CompileError::MalformedExpression);
                        },
                    }
                }
            },
            Token::Concat => {},
            Token::Empty => {},
            _ => {
                q.push(t);
            },
        }
        proof {
            assert(expand_step(q0, tokens@[i as int]) == Some(q@));
            assert(expand_from(tokens@, i as int, q0) == expand_from(tokens@, i + 1, q@));
        }
        i = i + 1;
    }

    // Second pass: implicit concatenation markers.
    let m = q.len();
    let mut out: Vec<Token> = Vec::new();
    let mut j: usize = 0;
    while j < m
        invariant
            m == q@.len(),
            j <= m,
            concat_mark_from(q@, j as int, out@) == concat_mark_from(q@, 0, Seq::<Token>::empty()),
        decreases m - j,
    {
        let t = q[j];
        let ghost out0 = out@;
        let mut marked = false;
        if out.len() > 0 {
            let prev = out[out.len() - 1];
            if implicit_concat(&prev, &t) {
                out.push(Token::Concat);
                marked = true;
            }
        }
        out.push(t);
        proof {
            if marked {
                assert(out@ =~= out0 + seq![Token::Concat, q@[j as int]]);
            } else {
                assert(out@ =~= out0.push(q@[j as int]));
            }
            assert(concat_mark_from(q@, j as int, out0) == concat_mark_from(q@, j + 1, out@));
        }
        j = j + 1;
    }
    Ok(out)
}

/// Pops operators of greater or equal binding strength than `p` from
/// the stack onto the output: every operator is left-associative.
pub open spec fn pop_ge(out: Seq<Token>, st: Seq<Token>, p: int) -> (Seq<Token>, Seq<Token>)
    decreases st.len(),
{
    if st.len() == 0 {
        (out, st)
    } else {
        let top = st[st.len() - 1];
        if spec_prec(top) >= p {
            pop_ge(out.push(top), st.take(st.len() - 1), p)
        } else {
            (out, st)
        }
    }
}

/// Pops the stack onto the output until the nearest `(`, which is
/// discarded; `None` when there is no `(` left.
pub open spec fn pop_to_lparen(out: Seq<Token>, st: Seq<Token>) -> Option<(Seq<Token>, Seq<Token>)>
    decreases st.len(),
{
    if st.len() == 0 {
        None
    } else {
        let top = st[st.len() - 1];
        if top is LParen {
            Some((out, st.take(st.len() - 1)))
        } else {
            pop_to_lparen(out.push(top), st.take(st.len() - 1))
        }
    }
}

/// One shunting-yard step on output and operator stack.
pub open spec fn yard_step(out: Seq<Token>, st: Seq<Token>, t: Token) -> Option<
    (Seq<Token>, Seq<Token>),
> {
    if is_atom(t) {
        Some((out.push(t), st))
    } else if t is LParen {
        Some((out, st.push(t)))
    } else if t is RParen {
        pop_to_lparen(out, st)
    } else if t is Kleene || t is Concat || t is Plus || t is Union {
        let popped = pop_ge(out, st, spec_prec(t));
        Some((popped.0, popped.1.push(t)))
    } else {
        Some((out, st))
    }
}

/// Runs shunting-yard steps over `s[i..]`.
pub open spec fn yard_from(s: Seq<Token>, i: int, out: Seq<Token>, st: Seq<Token>) -> Option<
    (Seq<Token>, Seq<Token>),
>
    decreases s.len() - i,
{
    if i < 0 || i >= s.len() {
        Some((out, st))
    } else {
        match yard_step(out, st, s[i]) {
            Some(p) => yard_from(s, i + 1, p.0, p.1),
            None => None,
        }
    }
}

/// Drains the remaining operator stack; a leftover `(` is a mismatch.
pub open spec fn drain_stack(out: Seq<Token>, st: Seq<Token>) -> Option<Seq<Token>>
    decreases st.len(),
{
    if st.len() == 0 {
        Some(out)
    } else if st[st.len() - 1] is LParen {
        None
    } else {
        drain_stack(out.push(st[st.len() - 1]), st.take(st.len() - 1))
    }
}

/// The postfix form of a desugared infix stream, or `None` on mismatched
/// parentheses.
pub open spec fn spec_yard(s: Seq<Token>) -> Option<Seq<Token>> {
    match yard_from(s, 0, Seq::empty(), Seq::empty()) {
        Some(p) => drain_stack(p.0, p.1),
        None => None,
    }
}

/// Converts a desugared infix token stream to postfix by the
/// shunting-yard method.
pub fn shunting_yard(tokens: Vec<Token>) -> (r: Result<Vec<Token>, CompileError>)
    ensures
        match r {
            Ok(v) => spec_yard(tokens@) == Some(v@),
            Err(e) => spec_yard(tokens@) is None && e == CompileError::UnbalancedParens,
        },
{
    let n = tokens.len();
    let mut out: Vec<Token> = Vec::new();
    let mut st: Vec<Token> = Vec::new();
    let mut i: usize = 0;
    while i < n
        invariant
            n == tokens@.len(),
            i <= n,
            yard_from(tokens@, i as int, out@, st@) == yard_from(
                tokens@,
                0,
                Seq::<Token>::empty(),
                Seq::<Token>::empty(),
            ),
        decreases n - i,
    {
        let t = tokens[i];
        let ghost out0 = out@;
        let ghost st0 = st@;
        if matches!(t, Token::Literal(_) | Token::Range(_, _) | Token::Sentinel | Token::Empty) {
            out.push(t);
        } else if matches!(t, Token::LParen) {
            st.push(t);
        } else if matches!(t, Token::RParen) {
            #[verifier::loop_isolation(true)]
            loop
                invariant_except_break
                    n == tokens@.len(),
                    i < n,
                    yard_from(tokens@, i as int, out0, st0) == yard_from(
                        tokens@,
                        0,
                        Seq::<Token>::empty(),
                        Seq::<Token>::empty(),
                    ),
                    tokens@[i as int] is RParen,
                    pop_to_lparen(out@, st@) == pop_to_lparen(out0, st0),
                ensures
                    pop_to_lparen(out0, st0) == Some((out@, st@)),
                decreases st@.len(),
            {
                if st.len() == 0 {
                    proof {
                        assert(pop_to_lparen(out@, st@) is None);
                        assert(yard_step(out0, st0, tokens@[i as int]) is None);
                        assert(yard_from(tokens@, i as int, out0, st0) is None);
                    }
                    return Err(CompileError::UnbalancedParens);
                }
                let ghost prev_out = out@;
                let ghost prev_st = st@;
                let top = st[st.len() - 1];
                st.pop();
                proof {
                    assert(st@ =~= prev_st.take(prev_st.len() - 1));
                }
                if matches!(top, Token::LParen) {
                    proof {
                        assert(pop_to_lparen(prev_out, prev_st) == Some((out@, st@)));
                    }
                    break ;
                }
                out.push(top);
                proof {
                    assert(pop_to_lparen(prev_out, prev_st) == pop_to_lparen(out@, st@));
                }
            }
        } else if matches!(t, Token::Kleene | Token::Concat | Token::Plus | Token::Union) {
            let p = precedence(&t);
            #[verifier::loop_isolation(true)]
            loop
                invariant
                    p as int == spec_prec(t),
                    pop_ge(out@, st@, spec_prec(t)) == pop_ge(out0, st0, spec_prec(t)),
                ensures
                    pop_ge(out0, st0, spec_prec(t)) == (out@, st@),
                decreases st@.len(),
            {
                if st.len() == 0 {
                    proof {
                        assert(pop_ge(out@, st@, spec_prec(t)) == (out@, st@));
                    }
                    break ;
                }
                let ghost prev_out = out@;
                let ghost prev_st = st@;
                let top = st[st.len() - 1];
                if precedence(&top) >= p {
                    st.pop();
                    out.push(top);
                    proof {
                        assert(st@ =~= prev_st.take(prev_st.len() - 1));
                        assert(pop_ge(prev_out, prev_st, spec_prec(t)) == pop_ge(
                            out@,
                            st@,
                            spec_prec(t),
                        ));
                    }
                } else {
                    proof {
                        assert(pop_ge(out@, st@, spec_prec(t)) == (out@, st@));
                    }
                    break ;
                }
            }
            st.push(t);
        } else {
            // `?` never reaches a desugared stream; ignored if it does.
        }
        proof {
            assert(yard_step(out0, st0, tokens@[i as int]) == Some((out@, st@)));
            assert(yard_from(tokens@, i as int, out0, st0) == yard_from(tokens@, i + 1, out@, st@));
        }
        i = i + 1;
    }
    #[verifier::loop_isolation(true)]
    loop
        invariant
            spec_yard(tokens@) == drain_stack(out@, st@),
        ensures
            spec_yard(tokens@) == Some(out@),
            st@.len() == 0,
        decreases st@.len(),
    {
        if st.len() == 0 {
            break ;
        }
        let ghost prev_out = out@;
        let ghost prev_st = st@;
        let top = st[st.len() - 1];
        if matches!(top, Token::LParen) {
            proof {
                assert(drain_stack(out@, st@) is None);
            }
            return Err(CompileError::UnbalancedParens);
        }
        st.pop();
        out.push(top);
        proof {
            assert(st@ =~= prev_st.take(prev_st.len() - 1));
            assert(drain_stack(prev_out, prev_st) == drain_stack(out@, st@));
        }
    }
    Ok(out)
}

/// The postfix token stream that a whole regex source compiles to: scan,
/// reject a reserved sentinel, wrap the regex as a parenthesized group
/// followed by the end-marker, desugar, and convert to postfix.
pub open spec fn spec_inf_to_pos(s: Seq<char>) -> Result<Seq<Token>, CompileError> {
    match spec_tokenize(s) {
        None => Err(CompileError::InvalidRange),
        Some(toks) => if toks.contains(Token::Sentinel) {
            Err(CompileError::ReservedSentinel)
        } else {
            let full = seq![Token::LParen] + toks + seq![Token::RParen, Token::Sentinel];
            match spec_expand(full) {
                None => Err(CompileError::MalformedExpression),
                Some(e) => match spec_yard(e) {
                    None => Err(CompileError::UnbalancedParens),
                    Some(p) => Ok(p),
                },
            }
        },
    }
}

/// Compiles one regex source string to a postfix token stream, with the
/// end-marker appended.
pub fn inf_to_pos(input: &str) -> (r: Result<Vec<Token>, CompileError>)
    ensures
        match r {
            Ok(v) => spec_inf_to_pos(input@) == Ok::<Seq<Token>, CompileError>(v@),
            Err(e) => spec_inf_to_pos(input@) == Err::<Seq<Token>, CompileError>(e),
        },
{
    let toks = match tokenize(input) {
        Ok(v) => v,
        Err(e) => {
            return Err(e);
        },
    };
    let tn = toks.len();
    let mut k: usize = 0;
    while k < tn
        invariant
            tn == toks@.len(),
            k <= tn,
            forall|h: int| 0 <= h < k ==> toks@[h] != Token::Sentinel,
        decreases tn - k,
    {
        if toks[k] == Token::Sentinel {
            proof {
                assert(toks@[k as int] == Token::Sentinel);
                assert(toks@.contains(Token::Sentinel));
            }
            return Err(CompileError::ReservedSentinel);
        }
        k = k + 1;
    }
    proof {
        assert(!toks@.contains(Token::Sentinel));
    }
    let mut full: Vec<Token> = Vec::new();
    full.push(Token::LParen);
    let mut k2: usize = 0;
    while k2 < tn
        invariant
            tn == toks@.len(),
            k2 <= tn,
            full@ == seq![Token::LParen] + toks@.take(k2 as int),
        decreases tn - k2,
    {
        let t = toks[k2];
        full.push(t);
        proof {
            assert(seq![Token::LParen] + toks@.take(k2 as int) + seq![toks@[k2 as int]] =~= seq![
                Token::LParen,
            ] + toks@.take(k2 + 1 as int));
        }
        k2 = k2 + 1;
    }
    full.push(Token::RParen);
    full.push(Token::Sentinel);
    proof {
        assert(toks@.take(tn as int) =~= toks@);
        assert(full@ =~= seq![Token::LParen] + toks@ + seq![Token::RParen, Token::Sentinel]);
    }
    let expanded = match expand(&full) {
        Ok(v) => v,
        Err(e) => {
            return Err(e);
        },
    };
    match shunting_yard(expanded) {
        Ok(v) => Ok(v),
        Err(e) => Err(e),
    }
}

} // verus!
