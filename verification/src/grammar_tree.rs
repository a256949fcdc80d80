//! The regex syntax tree, built from a postfix token stream by a stack
//! machine, and a hierarchical printer for it.

use vstd::prelude::*;

use crate::errors::CompileError;
use crate::inf_to_pos::{is_atom, Token};
use vstd::string::*;

use crate::text::{chars_to_string, push_str_chars, to_char_vec};

verus! {

/// A node of the syntax tree: a token value with up to two ordered
/// children. Leaves are literals, ranges, the sentinel, or the empty
/// word; internal nodes are unions, concatenations (binary), and
/// closures (unary, left child only).
#[derive(Debug)]
pub struct TreeNode {
    pub value: Token,
    pub left: Option<Box<TreeNode>>,
    pub right: Option<Box<TreeNode>>,
}

/// Shape discipline of a syntax tree: leaves carry operand tokens and
/// have no children, closure nodes have exactly a left child, and binary
/// nodes have both children.
pub open spec fn tree_wf(t: TreeNode) -> bool
    decreases t,
{
    if is_atom(t.value) {
        t.left is None && t.right is None
    } else if t.value is Kleene {
        match (t.left, t.right) {
            (Some(l), None) => tree_wf(*l),
            _ => false,
        }
    } else if t.value is Union || t.value is Concat {
        match (t.left, t.right) {
            (Some(l), Some(r)) => tree_wf(*l) && tree_wf(*r),
            _ => false,
        }
    } else {
        false
    }
}

/// One step of the postfix stack machine: operands push a leaf, `*` pops
/// one subtree, `|` and the concatenation marker pop two (right first),
/// keeping the children in their original order.
pub open spec fn build_step(stack: Seq<TreeNode>, t: Token) -> Option<Seq<TreeNode>> {
    if is_atom(t) {
        Some(stack.push(TreeNode { value: t, left: None, right: None }))
    } else if t is Kleene {
        if stack.len() >= 1 {
            let child = stack[stack.len() - 1];
            Some(
                stack.take(stack.len() - 1).push(
                    TreeNode { value: t, left: Some(Box::new(child)), right: None },
                ),
            )
        } else {
            None
        }
    } else if t is Union || t is Concat {
        if stack.len() >= 2 {
            let right = stack[stack.len() - 1];
            let left = stack[stack.len() - 2];
            Some(
                stack.take(stack.len() - 2).push(
                    TreeNode {
                        value: t,
                        left: Some(Box::new(left)),
                        right: Some(Box::new(right)),
                    },
                ),
            )
        } else {
            None
        }
    } else {
        None
    }
}

/// Runs the stack machine over `s[i..]` from stack `stack`.
pub open spec fn build_from(s: Seq<Token>, i: int, stack: Seq<TreeNode>) -> Option<Seq<TreeNode>>
    decreases s.len() - i,
{
    if i < 0 || i >= s.len() {
        Some(stack)
    } else {
        match build_step(stack, s[i]) {
            Some(st2) => build_from(s, i + 1, st2),
            None => None,
        }
    }
}

/// The tree a postfix stream builds: the machine must end with exactly
/// one subtree on the stack.
pub open spec fn spec_build(s: Seq<Token>) -> Option<TreeNode> {
    match build_from(s, 0, Seq::empty()) {
        Some(stack) => if stack.len() == 1 {
            Some(stack[0])
        } else {
            None
        },
        None => None,
    }
}

/// Owns the syntax tree built from one postfix stream.
pub struct Tree {
    root: Option<TreeNode>,
}

impl Tree {
    /// The stored root, if a tree has been built.
    pub closed spec fn root_spec(self) -> Option<TreeNode> {
        self.root
    }

    /// Creates an empty builder.
    pub fn new() -> (t: Tree)
        ensures
            t.root_spec() is None,
    {
        Tree { root: None }
    }

    /// Builds the syntax tree of a postfix token stream.
    ///
    /// Fails when an operator is missing an operand or when the stream
    /// leaves more or fewer than one subtree.
    pub fn generate(&mut self, tokens: Vec<Token>) -> (r: Result<TreeNode, CompileError>)
        ensures
            match r {
                Ok(node) => spec_build(tokens@) == Some(node) && tree_wf(node)
                    && final(self).root_spec() == Some(node),
                Err(e) => spec_build(tokens@) is None && e == CompileError::MalformedExpression
                    && final(self).root_spec() is None,
            },
    {
        let n = tokens.len();
        let mut stack: Vec<TreeNode> = Vec::new();
        let mut i: usize = 0;
        while i < n
            invariant
                n == tokens@.len(),
                i <= n,
                build_from(tokens@, i as int, stack@) == build_from(
                    tokens@,
                    0,
                    Seq::<TreeNode>::empty(),
                ),
                forall|k: int| 0 <= k < stack@.len() ==> tree_wf(#[trigger] stack@[k]),
            decreases n - i,
        {
            let t = tokens[i];
            let ghost st0 = stack@;
            if matches!(t, Token::Literal(_) | Token::Range(_, _) | Token::Sentinel | Token::Empty)
                {
                stack.push(TreeNode { value: t, left: None, right: None });
            } else if matches!(t, Token::Kleene) {
                match stack.pop() {
                    Some(child) => {
                        proof {
                            assert(stack@ =~= st0.take(st0.len() - 1));
                        }
                        stack.push(
                            TreeNode { value: t, left: Some(Box::new(child)), right: None },
                        );
                    },
                    None => {
                        self.root = None;
                        proof {
                            assert(build_step(st0, tokens@[i as int]) is None);
                            assert(build_from(tokens@, i as int, st0) is None);
                        }
                        return Err(CompileError::MalformedExpression);
                    },
                }
            } else if matches!(t, Token::Union | Token::Concat) {
                if stack.len() < 2 {
                    self.root = None;
                    proof {
                        assert(build_step(st0, tokens@[i as int]) is None);
                        assert(build_from(tokens@, i as int, st0) is None);
                    }
                    return Err(CompileError::MalformedExpression);
                }
                let right = match stack.pop() {
                    Some(x) => x,
                    None => {
                        proof {
                            assert(false);
                        }
                        return Err(CompileError::MalformedExpression);
                    },
                };
                let left = match stack.pop() {
                    Some(x) => x,
                    None => {
                        proof {
                            assert(false);
                        }
                        return Err(CompileError::MalformedExpression);
                    },
                };
                proof {
                    assert(stack@ =~= st0.take(st0.len() - 2));
                }
                stack.push(
                    TreeNode {
                        value: t,
                        left: Some(Box::new(left)),
                        right: Some(Box::new(right)),
                    },
                );
            } else {
                self.root = None;
                proof {
                    assert(build_step(st0, tokens@[i as int]) is None);
                    assert(build_from(tokens@, i as int, st0) is None);
                }
                return Err(CompileError::MalformedExpression);
            }
            proof {
                assert(build_step(st0, tokens@[i as int]) == Some(stack@));
                assert(build_from(tokens@, i as int, st0) == build_from(tokens@, i + 1, stack@));
            }
            i = i + 1;
        }
        if stack.len() == 1 {
            let node = match stack.pop() {
                Some(x) => x,
                None => {
                    proof {
                        assert(false);
                    }
                    return Err(CompileError::MalformedExpression);
                },
            };
            let ret = copy_tree(&node);
            self.root = Some(node);
            proof {
                assert(spec_build(tokens@) == Some(ret));
            }
            Ok(ret)
        } else {
            self.root = None;
            Err(CompileError::MalformedExpression)
        }
    }
}

/// Four spaces of indent for each nesting level.
pub open spec fn spaces(level: int) -> Seq<char>
    decreases level,
{
    if level <= 0 {
        Seq::empty()
    } else {
        spaces(level - 1) + seq![' ', ' ', ' ', ' ']
    }
}

/// The Debug escaping of one character, as it appears between the
/// quotes of the character's `{:?}` form. Names what
/// `char::escape_debug` yields.
pub uninterp spec fn debug_escape_of(c: char) -> Seq<char>;

/// Relies on char::escape_debug: the Debug-escaped spelling of the
/// character, a function of the character alone.
#[verifier::external_body]
fn escape_debug_char(c: char) -> (r: String)
    ensures
        r@ == debug_escape_of(c),
{
    c.escape_debug().collect()
}

/// The printed name of a token value: its `Debug` form, characters
/// spelled with their Debug escaping.
pub open spec fn token_label(t: Token) -> Seq<char> {
    match t {
        Token::Literal(c) => "Literal('"@ + debug_escape_of(c) + "')"@,
        Token::Range(a, b) => "Range('"@ + debug_escape_of(a) + "', '"@ + debug_escape_of(b)
            + "')"@,
        Token::Kleene => "Kleene"@,
        Token::Union => "Union"@,
        Token::Plus => "Plus"@,
        Token::Concat => "Concat"@,
        Token::LParen => "LParen"@,
        Token::RParen => "RParen"@,
        Token::Sentinel => "Sentinel"@,
        Token::Empty => "Empty"@,
        Token::Optional => "Optional"@,
    }
}

/// The hierarchical rendering of a tree: one line per node, children
/// indented one level deeper with `L----` and `R----` markers.
pub open spec fn render_tree(t: TreeNode, level: int, prefix: Seq<char>) -> Seq<char>
    decreases t,
{
    let head = spaces(level) + prefix + token_label(t.value) + seq!['\n'];
    let next = if level < usize::MAX {
        level + 1
    } else {
        level
    };
    let l = match t.left {
        Some(b) => render_tree(*b, next, "L----"@),
        None => Seq::empty(),
    };
    let r = match t.right {
        Some(b) => render_tree(*b, next, "R----"@),
        None => Seq::empty(),
    };
    head + l + r
}

/// Appends the printed name of a token value.
fn push_token_label(out: &mut Vec<char>, t: &Token)
    ensures
        final(out)@ == old(out)@ + token_label(*t),
{
    match t {
        Token::Literal(c) => {
            push_str_chars(out, "Literal('");
            let esc = escape_debug_char(*c);
            push_str_chars(out, esc.as_str());
            push_str_chars(out, "')");
            proof {
                assert(out@ =~= old(out)@ + token_label(*t));
            }
        },
        Token::Range(a, b) => {
            push_str_chars(out, "Range('");
            let ea = escape_debug_char(*a);
            push_str_chars(out, ea.as_str());
            push_str_chars(out, "', '");
            let eb = escape_debug_char(*b);
            push_str_chars(out, eb.as_str());
            push_str_chars(out, "')");
            proof {
                assert(out@ =~= old(out)@ + token_label(*t));
            }
        },
        Token::Kleene => push_str_chars(out, "Kleene"),
        Token::Union => push_str_chars(out, "Union"),
        Token::Plus => push_str_chars(out, "Plus"),
        Token::Concat => push_str_chars(out, "Concat"),
        Token::LParen => push_str_chars(out, "LParen"),
        Token::RParen => push_str_chars(out, "RParen"),
        Token::Sentinel => push_str_chars(out, "Sentinel"),
        Token::Empty => push_str_chars(out, "Empty"),
        Token::Optional => push_str_chars(out, "Optional"),
    }
}

/// Appends the rendering of `t` at the given level to `out`.
#[verifier::rlimit(100)]
fn render_into(t: &TreeNode, level: usize, prefix: &str, out: &mut Vec<char>)
    ensures
        final(out)@ == old(out)@ + render_tree(*t, level as int, prefix@),
    decreases *t,
{
    let mut k: usize = 0;
    while k < level
        invariant
            k <= level,
            out@ == old(out)@ + spaces(k as int),
        decreases level - k,
    {
        out.push(' ');
        out.push(' ');
        out.push(' ');
        out.push(' ');
        proof {
            assert(out@ =~= old(out)@ + spaces(k + 1 as int));
        }
        k = k + 1;
    }
    push_str_chars(out, prefix);
    push_token_label(out, &t.value);
    out.push('\n');
    let ghost head_done = out@;
    proof {
        assert(head_done =~= old(out)@ + (spaces(level as int) + prefix@ + token_label(t.value)
            + seq!['\n']));
    }
    let next: usize = if level < usize::MAX {
        level + 1
    } else {
        level
    };
    match &t.left {
        Some(b) => render_into(b, next, "L----", out),
        None => {},
    }
    let ghost left_done = out@;
    match &t.right {
        Some(b) => render_into(b, next, "R----", out),
        None => {},
    }
    proof {
        assert(out@ =~= old(out)@ + render_tree(*t, level as int, prefix@));
    }
}

impl TreeNode {
    /// Renders the subtree as an indented multi-line listing, one node
    /// per line, the given prefix before this node's name.
    #[allow(non_snake_case)]
    pub fn printTree(&self, level: usize, prefix: &str) -> (r: String)
        ensures
            r@ == render_tree(*self, level as int, prefix@),
    {
        let mut out: Vec<char> = Vec::new();
        render_into(self, level, prefix, &mut out);
        chars_to_string(&out)
    }
}

/// Deep copy of a syntax tree; the copy equals the original.
fn copy_tree(t: &TreeNode) -> (r: TreeNode)
    ensures
        r == *t,
    decreases *t,
{
    let left: Option<Box<TreeNode>> = match &t.left {
        Some(b) => Some(Box::new(copy_tree(b))),
        None => None,
    };
    let right: Option<Box<TreeNode>> = match &t.right {
        Some(b) => Some(Box::new(copy_tree(b))),
        None => None,
    };
    TreeNode { value: t.value, left, right }
}

} // verus!

verus! {

/// No leaf of the tree is the empty word. Desugaring drops stray
/// empty-word tokens from its input, so only such trees print to a
/// stream that reparses.
pub open spec fn no_empty_leaves(t: TreeNode) -> bool
    decreases t,
{
    !(t.value is Empty) && (match t.left {
        Some(b) => no_empty_leaves(*b),
        None => true,
    }) && (match t.right {
        Some(b) => no_empty_leaves(*b),
        None => true,
    })
}

/// The infix printing of a tree, with parentheses around every
/// operator node and juxtaposition for concatenation.
pub open spec fn print_infix(t: TreeNode) -> Seq<Token>
    decreases t,
{
    if is_atom(t.value) {
        seq![t.value]
    } else if t.value is Kleene {
        match t.left {
            Some(l) => seq![Token::LParen] + print_infix(*l) + seq![Token::Kleene, Token::RParen],
            None => Seq::empty(),
        }
    } else if t.value is Union {
        match (t.left, t.right) {
            (Some(l), Some(r)) => seq![Token::LParen] + print_infix(*l) + seq![Token::Union]
                + print_infix(*r) + seq![Token::RParen],
            _ => Seq::empty(),
        }
    } else if t.value is Concat {
        match (t.left, t.right) {
            (Some(l), Some(r)) => seq![Token::LParen] + print_infix(*l) + print_infix(*r) + seq![
                Token::RParen,
            ],
            _ => Seq::empty(),
        }
    } else {
        Seq::empty()
    }
}

/// The printing with explicit concatenation markers, as the desugarer
/// produces it from the plain printing.
pub open spec fn marked_print(t: TreeNode) -> Seq<Token>
    decreases t,
{
    if is_atom(t.value) {
        seq![t.value]
    } else if t.value is Kleene {
        match t.left {
            Some(l) => seq![Token::LParen] + marked_print(*l) + seq![Token::Kleene, Token::RParen],
            None => Seq::empty(),
        }
    } else if t.value is Union {
        match (t.left, t.right) {
            (Some(l), Some(r)) => seq![Token::LParen] + marked_print(*l) + seq![Token::Union]
                + marked_print(*r) + seq![Token::RParen],
            _ => Seq::empty(),
        }
    } else if t.value is Concat {
        match (t.left, t.right) {
            (Some(l), Some(r)) => seq![Token::LParen] + marked_print(*l) + seq![Token::Concat]
                + marked_print(*r) + seq![Token::RParen],
            _ => Seq::empty(),
        }
    } else {
        Seq::empty()
    }
}

/// The postfix form of a tree: children first, operator last.
pub open spec fn postfix_of(t: TreeNode) -> Seq<Token>
    decreases t,
{
    if is_atom(t.value) {
        seq![t.value]
    } else if t.value is Kleene {
        match t.left {
            Some(l) => postfix_of(*l) + seq![Token::Kleene],
            None => Seq::empty(),
        }
    } else if t.value is Union || t.value is Concat {
        match (t.left, t.right) {
            (Some(l), Some(r)) => postfix_of(*l) + postfix_of(*r) + seq![t.value],
            _ => Seq::empty(),
        }
    } else {
        Seq::empty()
    }
}

} // verus!

verus! {

/// The token a tree's printing starts with.
pub open spec fn first_tok(t: TreeNode) -> Token {
    if is_atom(t.value) {
        t.value
    } else {
        Token::LParen
    }
}

/// The token a tree's printing ends with.
pub open spec fn last_tok(t: TreeNode) -> Token {
    if is_atom(t.value) {
        t.value
    } else {
        Token::RParen
    }
}

/// Shape of a printing: nonempty, first and last tokens as given by
/// `first_tok` and `last_tok` for both forms, and free of the sugar
/// that desugaring would rewrite or drop.
proof fn lemma_print_shape(t: TreeNode)
    requires
        tree_wf(t),
        no_empty_leaves(t),
    ensures
        print_infix(t).len() > 0,
        marked_print(t).len() > 0,
        postfix_of(t).len() > 0,
        print_infix(t)[0] == first_tok(t),
        marked_print(t)[0] == first_tok(t),
        print_infix(t)[print_infix(t).len() - 1] == last_tok(t),
        marked_print(t)[marked_print(t).len() - 1] == last_tok(t),
        forall|k: int|
            0 <= k < print_infix(t).len() ==> !((#[trigger] print_infix(t)[k]) is Optional
                || print_infix(t)[k] is Plus || print_infix(t)[k] is Concat || print_infix(
                t,
            )[k] is Empty),
    decreases t,
{
    match t.left {
        Some(b) => lemma_print_shape(*b),
        None => {},
    }
    match t.right {
        Some(b) => lemma_print_shape(*b),
        None => {},
    }
}

/// On a stream free of closure sugar, concatenation markers, and
/// empty-word tokens, the desugarer's rewrite pass is the identity.
proof fn lemma_expand_nosugar(s: Seq<Token>, i: int, q: Seq<Token>)
    requires
        0 <= i <= s.len(),
        forall|k: int|
            i <= k < s.len() ==> !((#[trigger] s[k]) is Optional || s[k] is Plus || s[k] is Concat
                || s[k] is Empty),
    ensures
        crate::inf_to_pos::expand_from(s, i, q) == Some(q + s.skip(i)),
    decreases s.len() - i,
{
    if i < s.len() {
        lemma_expand_nosugar(s, i + 1, q.push(s[i]));
        assert(crate::inf_to_pos::expand_step(q, s[i]) == Some(q.push(s[i])));
        assert(q.push(s[i]) + s.skip(i + 1) =~= q + s.skip(i));
    } else {
        assert(q + s.skip(i) =~= q);
    }
}

/// What a segment inserts ahead of itself: one concatenation marker if
/// the previous token joins onto the segment's first token.
pub open spec fn lead_mark(out: Seq<Token>, first: Token) -> Seq<Token> {
    if out.len() > 0 && crate::inf_to_pos::spec_implicit_concat(out[out.len() - 1], first) {
        seq![Token::Concat]
    } else {
        Seq::empty()
    }
}

/// The marker-insertion pass turns one printed subtree into its marked
/// printing, prefixed by at most one joining marker.
proof fn lemma_mark_seg(t: TreeNode, s: Seq<Token>, i: int, out: Seq<Token>)
    requires
        tree_wf(t),
        no_empty_leaves(t),
        0 <= i,
        i + print_infix(t).len() <= s.len(),
        s.subrange(i, i + print_infix(t).len() as int) == print_infix(t),
        out.len() > 0 ==> i > 0 && out[out.len() - 1] == s[i - 1],
    ensures
        crate::inf_to_pos::concat_mark_from(s, i, out) == crate::inf_to_pos::concat_mark_from(
            s,
            i + print_infix(t).len() as int,
            out + lead_mark(out, first_tok(t)) + marked_print(t),
        ),
    decreases t, 2int,
{
    lemma_print_shape(t);
    if is_atom(t.value) {
        assert(s.subrange(i, i + print_infix(t).len() as int)[0] == t.value);
        assert(s[i] == t.value);
        let out2 = if out.len() > 0 && crate::inf_to_pos::spec_implicit_concat(
            out[out.len() - 1],
            s[i],
        ) {
            out + seq![Token::Concat, s[i]]
        } else {
            out.push(s[i])
        };
        assert(out2 =~= out + lead_mark(out, first_tok(t)) + marked_print(t));
        assert(crate::inf_to_pos::concat_mark_from(s, i, out)
            == crate::inf_to_pos::concat_mark_from(s, i + 1, out2));
        assert(crate::inf_to_pos::concat_mark_from(s, i + 1, out2)
            == crate::inf_to_pos::concat_mark_from(
            s,
            i + 1,
            out + lead_mark(out, first_tok(t)) + marked_print(t),
        ));
    } else if t.value is Kleene {
        lemma_mark_seg_kleene(t, s, i, out);
    } else if t.value is Union {
        lemma_mark_seg_union(t, s, i, out);
    } else if t.value is Concat {
        lemma_mark_seg_concat(t, s, i, out);
    }
}

/// The opening parenthesis and left child of a binary node's printing,
/// as the marker pass copies them.
#[verifier::rlimit(100)]
#[verifier::spinoff_prover]
proof fn lemma_mark_left(t: TreeNode, s: Seq<Token>, i: int, out: Seq<Token>)
    requires
        tree_wf(t),
        no_empty_leaves(t),
        t.value is Union || t.value is Concat,
        0 <= i,
        i + print_infix(t).len() <= s.len(),
        s.subrange(i, i + print_infix(t).len() as int) == print_infix(t),
        out.len() > 0 ==> i > 0 && out[out.len() - 1] == s[i - 1],
    ensures
        crate::inf_to_pos::concat_mark_from(s, i, out) == crate::inf_to_pos::concat_mark_from(
            s,
            i + 1 + print_infix(*t.left.unwrap()).len() as int,
            out + lead_mark(out, first_tok(t)) + seq![Token::LParen] + marked_print(
                *t.left.unwrap(),
            ),
        ),
    decreases t, 0int,
{
    lemma_print_shape(t);
    let p = print_infix(t);
    let np = p.len() as int;
    assert forall|k: int| 0 <= k < np implies s[i + k] == p[k] by {
        assert(s.subrange(i, i + np)[k] == p[k]);
    }
    let l = *t.left.unwrap();
    lemma_print_shape(l);
    let pl = print_infix(l);
    let nl = pl.len() as int;
    assert(s[i] == Token::LParen);
    lemma_mark_one(s, i, out, Token::LParen);
    let out2 = out + lead_mark(out, first_tok(t)) + seq![Token::LParen];
    assert(out2 =~= out + lead_mark(out, Token::LParen) + seq![Token::LParen]);
    assert(s.subrange(i + 1, i + 1 + nl) =~= pl) by {
        assert forall|k: int| 0 <= k < nl implies s.subrange(i + 1, i + 1 + nl)[k] == pl[k] by {
            assert(p[1 + k] == pl[k]);
        }
    }
    assert(out2[out2.len() - 1] == s[i]);
    lemma_mark_seg(l, s, i + 1, out2);
    assert(lead_mark(out2, first_tok(l)) =~= Seq::<Token>::empty());
    assert(out2 + lead_mark(out2, first_tok(l)) + marked_print(l) =~= out2 + marked_print(l));
}

/// One marker-insertion step: the pass copies the token, putting one
/// joining marker ahead of it when the previous token joins onto it.
proof fn lemma_mark_one(s: Seq<Token>, i: int, out: Seq<Token>, c: Token)
    requires
        0 <= i < s.len(),
        s[i] == c,
    ensures
        crate::inf_to_pos::concat_mark_from(s, i, out) == crate::inf_to_pos::concat_mark_from(
            s,
            i + 1,
            out + lead_mark(out, c) + seq![c],
        ),
{
    let out2 = if out.len() > 0 && crate::inf_to_pos::spec_implicit_concat(
        out[out.len() - 1],
        s[i],
    ) {
        out + seq![Token::Concat, s[i]]
    } else {
        out.push(s[i])
    };
    assert(out2 =~= out + lead_mark(out, c) + seq![c]);
}

#[verifier::rlimit(100)]
proof fn lemma_mark_seg_kleene(t: TreeNode, s: Seq<Token>, i: int, out: Seq<Token>)
    requires
        tree_wf(t),
        no_empty_leaves(t),
        t.value is Kleene,
        0 <= i,
        i + print_infix(t).len() <= s.len(),
        s.subrange(i, i + print_infix(t).len() as int) == print_infix(t),
        out.len() > 0 ==> i > 0 && out[out.len() - 1] == s[i - 1],
    ensures
        crate::inf_to_pos::concat_mark_from(s, i, out) == crate::inf_to_pos::concat_mark_from(
            s,
            i + print_infix(t).len() as int,
            out + lead_mark(out, first_tok(t)) + marked_print(t),
        ),
    decreases t, 1int,
{
    lemma_print_shape(t);
    let p = print_infix(t);
    let np = p.len() as int;
    assert forall|k: int| 0 <= k < np implies s[i + k] == p[k] by {
        assert(s.subrange(i, i + np)[k] == p[k]);
    }
    let l = *t.left.unwrap();
    lemma_print_shape(l);
    let pl = print_infix(l);
    let nl = pl.len() as int;
    assert(s[i] == Token::LParen);
    lemma_mark_one(s, i, out, Token::LParen);
    let out2 = out + lead_mark(out, first_tok(t)) + seq![Token::LParen];
    assert(out2 =~= out + lead_mark(out, Token::LParen) + seq![Token::LParen]);
    assert(s.subrange(i + 1, i + 1 + nl) =~= pl) by {
        assert forall|k: int| 0 <= k < nl implies s.subrange(i + 1, i + 1 + nl)[k] == pl[k] by {
            assert(p[1 + k] == pl[k]);
        }
    }
    assert(out2[out2.len() - 1] == s[i]);
    lemma_mark_seg(l, s, i + 1, out2);
    assert(lead_mark(out2, first_tok(l)) =~= Seq::<Token>::empty());
    let out3 = out2 + marked_print(l);
    assert(out2 + lead_mark(out2, first_tok(l)) + marked_print(l) =~= out3);
    assert(s[i + 1 + nl] == Token::Kleene) by {
        assert(p[1 + nl] == Token::Kleene);
    }
    assert(s[i + 2 + nl] == Token::RParen) by {
        assert(p[2 + nl] == Token::RParen);
    }
    lemma_mark_one(s, i + 1 + nl, out3, Token::Kleene);
    assert(lead_mark(out3, Token::Kleene) =~= Seq::<Token>::empty());
    let out4 = out3.push(Token::Kleene);
    assert(out3 + lead_mark(out3, Token::Kleene) + seq![Token::Kleene] =~= out4);
    lemma_mark_one(s, i + 2 + nl, out4, Token::RParen);
    assert(lead_mark(out4, Token::RParen) =~= Seq::<Token>::empty());
    let out5 = out4.push(Token::RParen);
    assert(out4 + lead_mark(out4, Token::RParen) + seq![Token::RParen] =~= out5);
    assert(out5 =~= out + lead_mark(out, first_tok(t)) + marked_print(t));
    assert(i + 3 + nl == i + np);
}

#[verifier::rlimit(100)]
#[verifier::spinoff_prover]
proof fn lemma_mark_seg_union(t: TreeNode, s: Seq<Token>, i: int, out: Seq<Token>)
    requires
        tree_wf(t),
        no_empty_leaves(t),
        t.value is Union,
        0 <= i,
        i + print_infix(t).len() <= s.len(),
        s.subrange(i, i + print_infix(t).len() as int) == print_infix(t),
        out.len() > 0 ==> i > 0 && out[out.len() - 1] == s[i - 1],
    ensures
        crate::inf_to_pos::concat_mark_from(s, i, out) == crate::inf_to_pos::concat_mark_from(
            s,
            i + print_infix(t).len() as int,
            out + lead_mark(out, first_tok(t)) + marked_print(t),
        ),
    decreases t, 1int,
{
    lemma_print_shape(t);
    let p = print_infix(t);
    let np = p.len() as int;
    assert forall|k: int| 0 <= k < np implies s[i + k] == p[k] by {
        assert(s.subrange(i, i + np)[k] == p[k]);
    }
    let l = *t.left.unwrap();
    let r = *t.right.unwrap();
    lemma_print_shape(l);
    lemma_print_shape(r);
    let pl = print_infix(l);
    let pr = print_infix(r);
    let nl = pl.len() as int;
    let nr = pr.len() as int;
    lemma_mark_left(t, s, i, out);
    let out3 = out + lead_mark(out, first_tok(t)) + seq![Token::LParen] + marked_print(l);
    assert(out3[out3.len() - 1] == last_tok(l));
    assert(s[i + 1 + nl] == Token::Union) by {
        assert(p[1 + nl] == Token::Union);
    }
    lemma_mark_one(s, i + 1 + nl, out3, Token::Union);
    assert(lead_mark(out3, Token::Union) =~= Seq::<Token>::empty());
    let out4 = out3.push(Token::Union);
    assert(out3 + lead_mark(out3, Token::Union) + seq![Token::Union] =~= out4);
    assert(s.subrange(i + 2 + nl, i + 2 + nl + nr) =~= pr) by {
        assert forall|k: int| 0 <= k < nr implies s.subrange(i + 2 + nl, i + 2 + nl + nr)[k]
            == pr[k] by {
            assert(p[2 + nl + k] == pr[k]);
        }
    }
    assert(out4[out4.len() - 1] == s[i + 1 + nl]);
    lemma_mark_seg(r, s, i + 2 + nl, out4);
    assert(lead_mark(out4, first_tok(r)) =~= Seq::<Token>::empty());
    let out5 = out4 + marked_print(r);
    assert(out4 + lead_mark(out4, first_tok(r)) + marked_print(r) =~= out5);
    assert(s[i + 2 + nl + nr] == Token::RParen) by {
        assert(p[2 + nl + nr] == Token::RParen);
    }
    assert(out5[out5.len() - 1] == last_tok(r));
    lemma_mark_one(s, i + 2 + nl + nr, out5, Token::RParen);
    assert(lead_mark(out5, Token::RParen) =~= Seq::<Token>::empty());
    let out6 = out5.push(Token::RParen);
    assert(out5 + lead_mark(out5, Token::RParen) + seq![Token::RParen] =~= out6);
    assert(out6 =~= out + lead_mark(out, first_tok(t)) + marked_print(t));
    assert(i + 3 + nl + nr == i + np);
}

#[verifier::rlimit(100)]
#[verifier::spinoff_prover]
proof fn lemma_mark_seg_concat(t: TreeNode, s: Seq<Token>, i: int, out: Seq<Token>)
    requires
        tree_wf(t),
        no_empty_leaves(t),
        t.value is Concat,
        0 <= i,
        i + print_infix(t).len() <= s.len(),
        s.subrange(i, i + print_infix(t).len() as int) == print_infix(t),
        out.len() > 0 ==> i > 0 && out[out.len() - 1] == s[i - 1],
    ensures
        crate::inf_to_pos::concat_mark_from(s, i, out) == crate::inf_to_pos::concat_mark_from(
            s,
            i + print_infix(t).len() as int,
            out + lead_mark(out, first_tok(t)) + marked_print(t),
        ),
    decreases t, 1int,
{
    lemma_print_shape(t);
    let p = print_infix(t);
    let np = p.len() as int;
    assert forall|k: int| 0 <= k < np implies s[i + k] == p[k] by {
        assert(s.subrange(i, i + np)[k] == p[k]);
    }
    let l = *t.left.unwrap();
    let r = *t.right.unwrap();
    lemma_print_shape(l);
    lemma_print_shape(r);
    let pl = print_infix(l);
    let pr = print_infix(r);
    let nl = pl.len() as int;
    let nr = pr.len() as int;
    lemma_mark_left(t, s, i, out);
    let out3 = out + lead_mark(out, first_tok(t)) + seq![Token::LParen] + marked_print(l);
    assert(out3[out3.len() - 1] == last_tok(l));
    assert(s.subrange(i + 1 + nl, i + 1 + nl + nr) =~= pr) by {
        assert forall|k: int| 0 <= k < nr implies s.subrange(i + 1 + nl, i + 1 + nl + nr)[k]
            == pr[k] by {
            assert(p[1 + nl + k] == pr[k]);
        }
    }
    assert(s[i + nl] == last_tok(l)) by {
        assert(p[nl] == pl[nl - 1]);
    }
    assert(out3[out3.len() - 1] == s[i + nl]);
    lemma_mark_seg(r, s, i + 1 + nl, out3);
    // The junction of the two children takes exactly one marker: the
    // left child ends in an operand or `)`, the right child starts
    // with an operand or `(`.
    assert(crate::inf_to_pos::spec_implicit_concat(last_tok(l), first_tok(r)));
    assert(lead_mark(out3, first_tok(r)) =~= seq![Token::Concat]);
    let out5 = out3 + seq![Token::Concat] + marked_print(r);
    assert(out3 + lead_mark(out3, first_tok(r)) + marked_print(r) =~= out5);
    assert(s[i + 1 + nl + nr] == Token::RParen) by {
        assert(p[1 + nl + nr] == Token::RParen);
    }
    assert(out5[out5.len() - 1] == last_tok(r));
    lemma_mark_one(s, i + 1 + nl + nr, out5, Token::RParen);
    assert(lead_mark(out5, Token::RParen) =~= Seq::<Token>::empty());
    let out6 = out5.push(Token::RParen);
    assert(out5 + lead_mark(out5, Token::RParen) + seq![Token::RParen] =~= out6);
    assert(out6 =~= out + lead_mark(out, first_tok(t)) + marked_print(t));
    assert(i + 2 + nl + nr == i + np);
}

/// The shunting-yard pass turns one marked subtree into its postfix
/// form, leaving the operator stack as it found it.
proof fn lemma_yard_seg(t: TreeNode, s: Seq<Token>, i: int, out: Seq<Token>, st: Seq<Token>)
    requires
        tree_wf(t),
        no_empty_leaves(t),
        0 <= i,
        i + marked_print(t).len() <= s.len(),
        s.subrange(i, i + marked_print(t).len() as int) == marked_print(t),
    ensures
        crate::inf_to_pos::yard_from(s, i, out, st) == crate::inf_to_pos::yard_from(
            s,
            i + marked_print(t).len() as int,
            out + postfix_of(t),
            st,
        ),
    decreases t, 1int,
{
    if is_atom(t.value) {
        assert(s.subrange(i, i + marked_print(t).len() as int)[0] == t.value);
        assert(s[i] == t.value);
        assert(crate::inf_to_pos::yard_step(out, st, s[i]) == Some((out.push(t.value), st)));
        assert(out.push(t.value) =~= out + postfix_of(t));
    } else if t.value is Kleene {
        lemma_yard_seg_kleene(t, s, i, out, st);
    } else if t.value is Union {
        lemma_yard_seg_union(t, s, i, out, st);
    } else if t.value is Concat {
        lemma_yard_seg_concat(t, s, i, out, st);
    }
}

#[verifier::rlimit(100)]
proof fn lemma_yard_seg_kleene(t: TreeNode, s: Seq<Token>, i: int, out: Seq<Token>, st: Seq<Token>)
    requires
        tree_wf(t),
        no_empty_leaves(t),
        t.value is Kleene,
        0 <= i,
        i + marked_print(t).len() <= s.len(),
        s.subrange(i, i + marked_print(t).len() as int) == marked_print(t),
    ensures
        crate::inf_to_pos::yard_from(s, i, out, st) == crate::inf_to_pos::yard_from(
            s,
            i + marked_print(t).len() as int,
            out + postfix_of(t),
            st,
        ),
    decreases t, 0int,
{
    let m = marked_print(t);
    let nm = m.len() as int;
    assert forall|k: int| 0 <= k < nm implies s[i + k] == m[k] by {
        assert(s.subrange(i, i + nm)[k] == m[k]);
    }
    let l = *t.left.unwrap();
    let ml = marked_print(l);
    let nl = ml.len() as int;
    assert(s[i + 0] == m[0]);
    assert(s[i] == Token::LParen);
    let st2 = st.push(Token::LParen);
    assert(crate::inf_to_pos::yard_step(out, st, s[i]) == Some((out, st2)));
    assert(crate::inf_to_pos::yard_from(s, i, out, st) == crate::inf_to_pos::yard_from(
        s,
        i + 1,
        out,
        st2,
    ));
    assert(s.subrange(i + 1, i + 1 + nl) =~= ml) by {
        assert forall|k: int| 0 <= k < nl implies s.subrange(i + 1, i + 1 + nl)[k] == ml[k] by {
            assert(m[1 + k] == ml[k]);
        }
    }
    lemma_yard_seg(l, s, i + 1, out, st2);
    let out2 = out + postfix_of(l);
    assert(s[i + 1 + nl] == Token::Kleene) by {
        assert(m[1 + nl] == Token::Kleene);
    }
    assert(s[i + 2 + nl] == Token::RParen) by {
        assert(m[2 + nl] == Token::RParen);
    }
    // The star pushes over the open parenthesis without popping.
    assert(crate::inf_to_pos::pop_ge(out2, st2, crate::inf_to_pos::spec_prec(Token::Kleene))
        == (out2, st2));
    let st3 = st2.push(Token::Kleene);
    assert(crate::inf_to_pos::yard_step(out2, st2, s[i + 1 + nl]) == Some((out2, st3)));
    assert(crate::inf_to_pos::yard_from(s, i + 1 + nl, out2, st2) == crate::inf_to_pos::yard_from(
        s,
        i + 2 + nl,
        out2,
        st3,
    ));
    // The closing parenthesis pops the star and discards the opening.
    assert(st3.take(st3.len() - 1) =~= st2);
    assert(st2.take(st2.len() - 1) =~= st);
    let out3 = out2.push(Token::Kleene);
    assert(crate::inf_to_pos::pop_to_lparen(out2, st3) == crate::inf_to_pos::pop_to_lparen(
        out3,
        st2,
    ));
    assert(crate::inf_to_pos::pop_to_lparen(out3, st2) == Some((out3, st)));
    assert(crate::inf_to_pos::yard_step(out2, st3, s[i + 2 + nl]) == Some((out3, st)));
    assert(crate::inf_to_pos::yard_from(s, i + 2 + nl, out2, st3) == crate::inf_to_pos::yard_from(
        s,
        i + 3 + nl,
        out3,
        st,
    ));
    assert(out3 =~= out + postfix_of(t));
    assert(i + 3 + nl == i + nm);
    assert(crate::inf_to_pos::yard_from(s, i + 3 + nl, out3, st) == crate::inf_to_pos::yard_from(
        s,
        i + nm,
        out + postfix_of(t),
        st,
    ));
}

#[verifier::rlimit(100)]
proof fn lemma_yard_seg_union(t: TreeNode, s: Seq<Token>, i: int, out: Seq<Token>, st: Seq<Token>)
    requires
        tree_wf(t),
        no_empty_leaves(t),
        t.value is Union,
        0 <= i,
        i + marked_print(t).len() <= s.len(),
        s.subrange(i, i + marked_print(t).len() as int) == marked_print(t),
    ensures
        crate::inf_to_pos::yard_from(s, i, out, st) == crate::inf_to_pos::yard_from(
            s,
            i + marked_print(t).len() as int,
            out + postfix_of(t),
            st,
        ),
    decreases t, 0int,
{
    let m = marked_print(t);
    let nm = m.len() as int;
    assert forall|k: int| 0 <= k < nm implies s[i + k] == m[k] by {
        assert(s.subrange(i, i + nm)[k] == m[k]);
    }
    let l = *t.left.unwrap();
    let r = *t.right.unwrap();
    let ml = marked_print(l);
    let mr = marked_print(r);
    let nl = ml.len() as int;
    let nr = mr.len() as int;
    assert(s[i + 0] == m[0]);
    assert(s[i] == Token::LParen);
    let st2 = st.push(Token::LParen);
    assert(crate::inf_to_pos::yard_step(out, st, s[i]) == Some((out, st2)));
    assert(s.subrange(i + 1, i + 1 + nl) =~= ml) by {
        assert forall|k: int| 0 <= k < nl implies s.subrange(i + 1, i + 1 + nl)[k] == ml[k] by {
            assert(m[1 + k] == ml[k]);
        }
    }
    lemma_yard_seg(l, s, i + 1, out, st2);
    let out2 = out + postfix_of(l);
    assert(s[i + 1 + nl] == Token::Union) by {
        assert(m[1 + nl] == Token::Union);
    }
    assert(crate::inf_to_pos::pop_ge(out2, st2, crate::inf_to_pos::spec_prec(Token::Union))
        == (out2, st2));
    let st3 = st2.push(Token::Union);
    assert(crate::inf_to_pos::yard_step(out2, st2, s[i + 1 + nl]) == Some((out2, st3)));
    assert(s.subrange(i + 2 + nl, i + 2 + nl + nr) =~= mr) by {
        assert forall|k: int| 0 <= k < nr implies s.subrange(i + 2 + nl, i + 2 + nl + nr)[k]
            == mr[k] by {
            assert(m[2 + nl + k] == mr[k]);
        }
    }
    lemma_yard_seg(r, s, i + 2 + nl, out2, st3);
    let out3 = out2 + postfix_of(r);
    assert(s[i + 2 + nl + nr] == Token::RParen) by {
        assert(m[2 + nl + nr] == Token::RParen);
    }
    assert(st3.take(st3.len() - 1) =~= st2);
    assert(st2.take(st2.len() - 1) =~= st);
    let out4 = out3.push(Token::Union);
    assert(crate::inf_to_pos::pop_to_lparen(out3, st3) == crate::inf_to_pos::pop_to_lparen(
        out4,
        st2,
    ));
    assert(crate::inf_to_pos::pop_to_lparen(out4, st2) == Some((out4, st)));
    assert(crate::inf_to_pos::yard_step(out3, st3, s[i + 2 + nl + nr]) == Some((out4, st)));
    assert(out4 =~= out + postfix_of(t));
    assert(i + 3 + nl + nr == i + nm);
}

#[verifier::rlimit(100)]
proof fn lemma_yard_seg_concat(t: TreeNode, s: Seq<Token>, i: int, out: Seq<Token>, st: Seq<Token>)
    requires
        tree_wf(t),
        no_empty_leaves(t),
        t.value is Concat,
        0 <= i,
        i + marked_print(t).len() <= s.len(),
        s.subrange(i, i + marked_print(t).len() as int) == marked_print(t),
    ensures
        crate::inf_to_pos::yard_from(s, i, out, st) == crate::inf_to_pos::yard_from(
            s,
            i + marked_print(t).len() as int,
            out + postfix_of(t),
            st,
        ),
    decreases t, 0int,
{
    let m = marked_print(t);
    let nm = m.len() as int;
    assert forall|k: int| 0 <= k < nm implies s[i + k] == m[k] by {
        assert(s.subrange(i, i + nm)[k] == m[k]);
    }
    let l = *t.left.unwrap();
    let r = *t.right.unwrap();
    let ml = marked_print(l);
    let mr = marked_print(r);
    let nl = ml.len() as int;
    let nr = mr.len() as int;
    assert(s[i + 0] == m[0]);
    assert(s[i] == Token::LParen);
    let st2 = st.push(Token::LParen);
    assert(crate::inf_to_pos::yard_step(out, st, s[i]) == Some((out, st2)));
    assert(s.subrange(i + 1, i + 1 + nl) =~= ml) by {
        assert forall|k: int| 0 <= k < nl implies s.subrange(i + 1, i + 1 + nl)[k] == ml[k] by {
            assert(m[1 + k] == ml[k]);
        }
    }
    lemma_yard_seg(l, s, i + 1, out, st2);
    let out2 = out + postfix_of(l);
    assert(s[i + 1 + nl] == Token::Concat) by {
        assert(m[1 + nl] == Token::Concat);
    }
    assert(crate::inf_to_pos::pop_ge(out2, st2, crate::inf_to_pos::spec_prec(Token::Concat))
        == (out2, st2));
    let st3 = st2.push(Token::Concat);
    assert(crate::inf_to_pos::yard_step(out2, st2, s[i + 1 + nl]) == Some((out2, st3)));
    assert(s.subrange(i + 2 + nl, i + 2 + nl + nr) =~= mr) by {
        assert forall|k: int| 0 <= k < nr implies s.subrange(i + 2 + nl, i + 2 + nl + nr)[k]
            == mr[k] by {
            assert(m[2 + nl + k] == mr[k]);
        }
    }
    lemma_yard_seg(r, s, i + 2 + nl, out2, st3);
    let out3 = out2 + postfix_of(r);
    assert(s[i + 2 + nl + nr] == Token::RParen) by {
        assert(m[2 + nl + nr] == Token::RParen);
    }
    assert(st3.take(st3.len() - 1) =~= st2);
    assert(st2.take(st2.len() - 1) =~= st);
    let out4 = out3.push(Token::Concat);
    assert(crate::inf_to_pos::pop_to_lparen(out3, st3) == crate::inf_to_pos::pop_to_lparen(
        out4,
        st2,
    ));
    assert(crate::inf_to_pos::pop_to_lparen(out4, st2) == Some((out4, st)));
    assert(crate::inf_to_pos::yard_step(out3, st3, s[i + 2 + nl + nr]) == Some((out4, st)));
    assert(out4 =~= out + postfix_of(t));
    assert(i + 3 + nl + nr == i + nm);
}

/// The stack machine consumes one postfix subtree and pushes exactly
/// that subtree.
#[verifier::rlimit(100)]
proof fn lemma_build_seg(t: TreeNode, s: Seq<Token>, i: int, st: Seq<TreeNode>)
    requires
        tree_wf(t),
        no_empty_leaves(t),
        0 <= i,
        i + postfix_of(t).len() <= s.len(),
        s.subrange(i, i + postfix_of(t).len() as int) == postfix_of(t),
    ensures
        build_from(s, i, st) == build_from(s, i + postfix_of(t).len() as int, st.push(t)),
    decreases t,
{
    let pf = postfix_of(t);
    let npf = pf.len() as int;
    assert forall|k: int| 0 <= k < npf implies s[i + k] == pf[k] by {
        assert(s.subrange(i, i + npf)[k] == pf[k]);
    }
    if is_atom(t.value) {
        assert(s[i + 0] == pf[0]);
        assert(s[i] == t.value);
        let node = TreeNode { value: t.value, left: None, right: None };
        assert(build_step(st, s[i]) == Some(st.push(node)));
        assert(node == t);
    } else if t.value is Kleene {
        let l = *t.left.unwrap();
        let pl = postfix_of(l);
        let nl = pl.len() as int;
        assert(s.subrange(i, i + nl) =~= pl) by {
            assert forall|k: int| 0 <= k < nl implies s.subrange(i, i + nl)[k] == pl[k] by {
                assert(pf[k] == pl[k]);
            }
        }
        lemma_build_seg(l, s, i, st);
        let st2 = st.push(l);
        assert(s[i + nl] == Token::Kleene) by {
            assert(pf[nl] == Token::Kleene);
        }
        let node = TreeNode { value: t.value, left: Some(Box::new(l)), right: None };
        assert(st2.take(st2.len() - 1) =~= st);
        assert(build_step(st2, s[i + nl]) == Some(st.push(node)));
        assert(node == t);
        assert(i + nl + 1 == i + npf);
    } else {
        let l = *t.left.unwrap();
        let r = *t.right.unwrap();
        let pl = postfix_of(l);
        let pr = postfix_of(r);
        let nl = pl.len() as int;
        let nr = pr.len() as int;
        assert(s.subrange(i, i + nl) =~= pl) by {
            assert forall|k: int| 0 <= k < nl implies s.subrange(i, i + nl)[k] == pl[k] by {
                assert(pf[k] == pl[k]);
            }
        }
        lemma_build_seg(l, s, i, st);
        let st2 = st.push(l);
        assert(s.subrange(i + nl, i + nl + nr) =~= pr) by {
            assert forall|k: int| 0 <= k < nr implies s.subrange(i + nl, i + nl + nr)[k]
                == pr[k] by {
                assert(pf[nl + k] == pr[k]);
            }
        }
        lemma_build_seg(r, s, i + nl, st2);
        let st3 = st2.push(r);
        assert(s[i + nl + nr] == t.value) by {
            assert(pf[nl + nr] == t.value);
        }
        let node = TreeNode { value: t.value, left: Some(Box::new(l)), right: Some(Box::new(r)) };
        assert(st3.take(st3.len() - 2) =~= st);
        assert(st3[st3.len() - 1] == r && st3[st3.len() - 2] == l);
        assert(build_step(st3, s[i + nl + nr]) == Some(st.push(node)));
        assert(node == t);
        assert(i + nl + nr + 1 == i + npf);
    }
}

/// Desugaring, shunting-yard conversion, and tree building together
/// are a left inverse of printing the tree in infix form with
/// parentheses around every operator: the printed stream desugars to
/// the marked printing, converts to the tree's postfix form, and
/// builds back exactly the printed tree. Only trees with empty-word
/// leaves are excluded, since desugaring drops stray empty-word
/// tokens.
pub proof fn lemma_print_parse_round_trip(t: TreeNode)
    requires
        tree_wf(t),
        no_empty_leaves(t),
    ensures
        crate::inf_to_pos::spec_expand(print_infix(t)) == Some(marked_print(t)),
        crate::inf_to_pos::spec_yard(marked_print(t)) == Some(postfix_of(t)),
        spec_build(postfix_of(t)) == Some(t),
{
    lemma_print_shape(t);
    let p = print_infix(t);
    let m = marked_print(t);
    let pf = postfix_of(t);
    // Desugaring: the rewrite pass is the identity, and the marker pass
    // produces the marked printing.
    lemma_expand_nosugar(p, 0, Seq::empty());
    assert(Seq::<Token>::empty() + p.skip(0) =~= p);
    assert(p.subrange(0, p.len() as int) =~= p);
    lemma_mark_seg(t, p, 0, Seq::empty());
    assert(Seq::<Token>::empty() + lead_mark(Seq::empty(), first_tok(t)) + m =~= m);
    assert(crate::inf_to_pos::concat_mark_from(p, 0, Seq::empty()) == m);
    // Shunting-yard: the marked printing converts to postfix with an
    // empty leftover stack.
    assert(m.subrange(0, m.len() as int) =~= m);
    lemma_yard_seg(t, m, 0, Seq::empty(), Seq::empty());
    assert(Seq::<Token>::empty() + pf =~= pf);
    assert(crate::inf_to_pos::yard_from(m, 0, Seq::empty(), Seq::empty()) == Some(
        (pf, Seq::<Token>::empty()),
    ));
    assert(crate::inf_to_pos::drain_stack(pf, Seq::<Token>::empty()) == Some(pf));
    // Building: the postfix form reconstructs the tree.
    assert(pf.subrange(0, pf.len() as int) =~= pf);
    lemma_build_seg(t, pf, 0, Seq::empty());
    assert(Seq::<TreeNode>::empty().push(t) =~= seq![t]);
    assert(build_from(pf, 0, Seq::empty()) == Some(seq![t]));
}

} // verus!
