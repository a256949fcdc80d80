use direct_afd_construction::compile::{compile, gen_reg};
use direct_afd_construction::grammar_tree::Tree;
use direct_afd_construction::inf_to_pos::inf_to_pos;
use direct_afd_construction::lex_reader::{
    clean_reg, get_line_array, get_tk_act, remove_whitespace, split_line,
};

#[test]
fn quotes_are_stripped() {
    assert_eq!(clean_reg("\"a b\"c"), "a bc");
    assert_eq!(clean_reg("abc"), "abc");
}

#[test]
fn whitespace_is_dropped() {
    assert_eq!(remove_whitespace(" a\tb c "), "abc");
}

#[test]
fn line_splits_into_pattern_and_action() {
    let (reg, act) = split_line("[0-9]+ { number }");
    assert_eq!(reg, "[0-9]+");
    assert_eq!(act, "number");
}

#[test]
fn quoted_spaces_stay_in_the_pattern() {
    let (reg, act) = split_line("\"a b\" { pad }");
    assert_eq!(reg, "a b");
    assert_eq!(act, "pad");
}

#[test]
fn leading_bar_is_a_continuation() {
    let (reg, act) = split_line("  | xyz { more }");
    assert_eq!(reg, "xyz");
    assert_eq!(act, "more");
}

#[test]
fn pattern_action_pair_is_cleaned() {
    let (reg, act) = get_tk_act("\"+\" { plus }");
    assert_eq!(reg, "+");
    assert_eq!(act, "plus");
}

#[test]
fn rule_section_is_collected() {
    let lines: Vec<String> = vec![
        "{".to_string(),
        "digit [0-9]".to_string(),
        "}".to_string(),
        "rule actions =".to_string(),
        "[0-9]+ { number }".to_string(),
        "[a-z]+ { word }".to_string(),
    ]
    .into_iter()
    .collect();
    let acts = get_line_array(&lines);
    assert_eq!(acts.len(), 2);
    assert_eq!(acts[0].0, "[0-9]+");
    assert_eq!(acts[0].1, "number");
    assert_eq!(acts[1].0, "[a-z]+");
    assert_eq!(acts[1].1, "word");
}

#[test]
fn combined_source_renders_each_rule() {
    let acts = vec![
        ("ab".to_string(), "first".to_string()),
        ("cd".to_string(), "second".to_string()),
    ];
    assert_eq!(gen_reg(&acts), "((ab)({first}))|((cd)({second}))");
    assert_eq!(compile(&acts), "((ab)({first}))((cd)({second}))");
}

#[test]
fn tree_printer_lists_nodes() {
    let postfix = inf_to_pos("ab").unwrap();
    let mut tree = Tree::new();
    let root = tree.generate(postfix).unwrap();
    let printed = root.printTree(0, "root ");
    assert!(printed.starts_with("root Concat\n"));
    assert!(printed.contains("L----"));
    assert!(printed.contains("Literal('a')"));
    assert!(printed.contains("Sentinel"));
}

#[test]
fn tree_printer_uses_debug_form() {
    // A range label keeps Debug's comma-space, and special characters
    // are spelled with their Debug escapes.
    let postfix = inf_to_pos("[0-9]\\\n").unwrap();
    let mut tree = Tree::new();
    let root = tree.generate(postfix).unwrap();
    let printed = root.printTree(0, "");
    assert!(printed.contains(&format!("{:?}", direct_afd_construction::inf_to_pos::Token::Range('0', '9'))));
    assert!(printed.contains("Range('0', '9')"));
    assert!(printed.contains("Literal('\\n')"));
}
