use direct_afd_construction::direct_afd::Dfa;
use direct_afd_construction::errors::{CompileError, ScanError};
use direct_afd_construction::simulation::{simulate, simulate_afd};
use direct_afd_construction::utilities::generate;

fn rules(v: &[&str]) -> Vec<String> {
    v.iter().map(|s| s.to_string()).collect()
}

fn build(v: &[&str]) -> Dfa {
    generate(&rules(v)).unwrap()
}

fn toks(d: &Dfa, input: &str) -> Vec<(usize, String)> {
    simulate(d, input)
        .unwrap()
        .into_iter()
        .map(|t| (t.tag, t.lexeme))
        .collect()
}

#[test]
fn single_literal_accepts_exactly_itself() {
    let d = build(&["a"]);
    assert_eq!(toks(&d, "a"), vec![(1usize, "a".to_string())]);
    assert!(simulate(&d, "b").is_err());
    // The scanner restarts after each match, so "aa" is two tokens;
    // whole-string acceptance is a different question.
    assert_eq!(
        toks(&d, "aa"),
        vec![(1usize, "a".to_string()), (1usize, "a".to_string())]
    );
    assert_eq!(toks(&d, ""), vec![]);
    assert!(simulate_afd(&d, "a"));
    assert!(!simulate_afd(&d, "aa"));
    assert!(!simulate_afd(&d, ""));
    assert!(!simulate_afd(&d, "b"));
}

#[test]
fn longest_match_beats_declaration_order() {
    // Two rules `a` and `aa`: on input "aa" the longer match wins even
    // though the shorter rule is declared first.
    let d = build(&["a", "aa"]);
    assert_eq!(toks(&d, "aa"), vec![(2usize, "aa".to_string())]);
}

#[test]
fn equal_length_tie_goes_to_smaller_tag() {
    let d = build(&["if", "[a-z]+"]);
    assert_eq!(toks(&d, "if"), vec![(1usize, "if".to_string())]);
}

#[test]
fn longest_match_spans_keyword_prefix() {
    let d = build(&["if", "[a-z]+"]);
    assert_eq!(toks(&d, "iffy"), vec![(2usize, "iffy".to_string())]);
}

#[test]
fn keyword_identifier_number_stream() {
    let d = build(&["[0-9]+", "while", "[a-z]+", " "]);
    assert_eq!(
        toks(&d, "while x 42"),
        vec![
            (2usize, "while".to_string()),
            (4usize, " ".to_string()),
            (3usize, "x".to_string()),
            (4usize, " ".to_string()),
            (1usize, "42".to_string()),
        ]
    );
}

#[test]
fn closure_with_suffix_matches_whole_word() {
    let d = build(&["(a|b)*abb"]);
    assert_eq!(toks(&d, "abababb"), vec![(1usize, "abababb".to_string())]);
}

#[test]
fn numbers_with_optional_sign_and_fraction() {
    let d = build(&[r"-?[0-9]+\.[0-9]*", "-?[0-9]+", " "]);
    assert_eq!(
        toks(&d, "-0.0 -7 3."),
        vec![
            (1usize, "-0.0".to_string()),
            (3usize, " ".to_string()),
            (2usize, "-7".to_string()),
            (3usize, " ".to_string()),
            (1usize, "3.".to_string()),
        ]
    );
}

#[test]
fn nullable_rule_is_rejected_at_compile_time() {
    assert_eq!(generate(&rules(&["a*"])), Err(CompileError::NullableRule));
}

#[test]
fn overlapping_ranges_are_rejected() {
    assert_eq!(
        generate(&rules(&["[a-m]x", "[k-z]y"])),
        Err(CompileError::AmbiguousRange)
    );
}

#[test]
fn unexpected_character_reports_cursor() {
    let d = build(&["a"]);
    assert_eq!(
        simulate(&d, "ab"),
        Err(ScanError::UnexpectedCharacter(1))
    );
    assert_eq!(
        simulate(&d, "b"),
        Err(ScanError::UnexpectedCharacter(0))
    );
}

#[test]
fn literal_wins_inside_covering_range() {
    // A keyword first rule and an identifier range second: scanning the
    // keyword's first letter must keep both rules alive.
    let d = build(&["while", "[a-z]+"]);
    assert_eq!(toks(&d, "whale"), vec![(2usize, "whale".to_string())]);
    assert_eq!(toks(&d, "while"), vec![(1usize, "while".to_string())]);
}
