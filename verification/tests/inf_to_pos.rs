use direct_afd_construction::errors::CompileError;
use direct_afd_construction::inf_to_pos::{expand, inf_to_pos, tokenize, Token};

#[test]
fn test_infpos() {
    // Regex; concatenation associates to the left, so the postfix
    // stream nests `(x~)t` rather than `x(~t)`.
    let i1 = r"(A[3-9]|((s!)*))~t";
    let t1 = [
        Token::Literal('A'),
        Token::Range('3', '9'),
        Token::Concat,
        Token::Literal('s'),
        Token::Literal('!'),
        Token::Concat,
        Token::Kleene,
        Token::Union,
        Token::Literal('~'),
        Token::Concat,
        Token::Literal('t'),
        Token::Concat,
        Token::Sentinel,
        Token::Concat,
    ];
    let e1 = inf_to_pos(i1).unwrap();
    assert_eq!(e1, t1);
}

#[test]
fn tokenize_escapes_and_ranges() {
    let toks = tokenize(r"\*a[0-9]").unwrap();
    assert_eq!(
        toks,
        vec![
            Token::Literal('*'),
            Token::Literal('a'),
            Token::Range('0', '9'),
        ]
    );
}

#[test]
fn tokenize_rejects_reversed_range() {
    assert_eq!(tokenize("[9-0]"), Err(CompileError::InvalidRange));
}

#[test]
fn tokenize_rejects_cross_script_range() {
    assert_eq!(tokenize("[a-9]"), Err(CompileError::InvalidRange));
}

#[test]
fn tokenize_rejects_short_bracket() {
    assert_eq!(tokenize("[ab]"), Err(CompileError::InvalidRange));
}

#[test]
fn optional_desugars_to_union_with_empty() {
    let toks = inf_to_pos("a?").unwrap();
    assert_eq!(
        toks,
        vec![
            Token::Literal('a'),
            Token::Empty,
            Token::Union,
            Token::Sentinel,
            Token::Concat,
        ]
    );
}

#[test]
fn plus_desugars_to_copy_and_star() {
    let toks = inf_to_pos("a+").unwrap();
    assert_eq!(
        toks,
        vec![
            Token::Literal('a'),
            Token::Literal('a'),
            Token::Kleene,
            Token::Concat,
            Token::Sentinel,
            Token::Concat,
        ]
    );
}

#[test]
fn concatenation_associates_left() {
    // `abc` parses as `(ab)c`: the postfix stream pairs `a b` first.
    let toks = inf_to_pos("abc").unwrap();
    assert_eq!(
        toks,
        vec![
            Token::Literal('a'),
            Token::Literal('b'),
            Token::Concat,
            Token::Literal('c'),
            Token::Concat,
            Token::Sentinel,
            Token::Concat,
        ]
    );
}

#[test]
fn sentinel_joins_onto_a_group() {
    // An end-marker directly before a group concatenates, like any
    // other operand pair.
    let toks = expand(&vec![
        Token::Sentinel,
        Token::LParen,
        Token::Literal('a'),
        Token::RParen,
    ])
    .unwrap();
    assert_eq!(
        toks,
        vec![
            Token::Sentinel,
            Token::Concat,
            Token::LParen,
            Token::Literal('a'),
            Token::RParen,
        ]
    );
}

#[test]
fn unbalanced_parens_rejected() {
    assert_eq!(inf_to_pos("(a"), Err(CompileError::UnbalancedParens));
}

#[test]
fn reserved_sentinel_rejected() {
    assert_eq!(inf_to_pos("a#b"), Err(CompileError::ReservedSentinel));
}

#[test]
fn dangling_optional_rejected() {
    assert_eq!(inf_to_pos("?"), Err(CompileError::MalformedExpression));
}
