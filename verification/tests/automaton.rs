use direct_afd_construction::automata::Graph;
use direct_afd_construction::direct_afd::DirectAFD;
use direct_afd_construction::grammar_tree::Tree;
use direct_afd_construction::inf_to_pos::inf_to_pos;
use direct_afd_construction::minimize::minimize_dfa;
use direct_afd_construction::simulation::simulate_afd;
use direct_afd_construction::token_identifier::{asignar_token, get_token_type, leer_cadena};
use direct_afd_construction::utilities::generate;
use direct_afd_construction::view::get_all_states;

fn compile_one(regex: &str) -> DirectAFD {
    let postfix = inf_to_pos(regex).unwrap();
    let mut tree = Tree::new();
    let root = tree.generate(postfix).unwrap();
    DirectAFD::new(root)
}

#[test]
fn nullable_tables_of_a_union() {
    // (a|%) : the union node is nullable, the literal is not.
    let afd = compile_one("a?");
    let (arena, root) = afd.read_tree();
    let nulls = afd.find_nullable();
    assert_eq!(nulls.len(), arena.len());
    assert_eq!(root, arena.len() - 1);
    // The whole tree ends in the non-nullable end-marker.
    assert!(!nulls[root]);
}

#[test]
fn firstpos_of_a_literal_is_its_own_position() {
    let afd = compile_one("a");
    let (arena, root) = afd.read_tree();
    let (fp, lp) = afd.find_first_last_pos();
    assert_eq!(fp.len(), arena.len());
    assert_eq!(lp.len(), arena.len());
    // The first leaf is the literal at arena index 0, position 1.
    assert_eq!(fp[0], vec![1]);
    assert_eq!(lp[0], vec![1]);
    // The root's firstpos is the literal's position.
    assert_eq!(fp[root], vec![1]);
}

#[test]
fn followpos_links_literal_to_end_marker() {
    let afd = compile_one("a");
    let (arena, _root) = afd.read_tree();
    let follow = afd.find_followpos();
    assert_eq!(follow.len(), arena.len());
    // Position 1 is the literal; its follow set holds the end-marker's
    // position, which itself has an empty follow set.
    let sent_pos = follow[0][0];
    assert!(follow[sent_pos - 1].is_empty());
}

#[test]
fn positions_are_dense_over_leaves() {
    // In `(a*)#` the sentinel is the second leaf, position 2, even
    // though an internal node sits between the two leaves in the
    // post-order arena.
    let afd = compile_one("a*");
    let (arena, _root) = afd.read_tree();
    let (fp, _lp) = afd.find_first_last_pos();
    assert_eq!(arena.len(), 4);
    assert_eq!(fp[2], vec![2]);
}

#[test]
fn construction_accepts_and_rejects() {
    let afd = compile_one("(a|b)*abb");
    let (dfa, _sets) = afd.create_states().unwrap();
    assert!(simulate_afd(&dfa, "abb"));
    assert!(simulate_afd(&dfa, "aababb"));
    assert!(!simulate_afd(&dfa, "ab"));
    assert!(!simulate_afd(&dfa, ""));
    assert!(!simulate_afd(&dfa, "abc"));
}

#[test]
fn minimization_keeps_the_language() {
    let afd = compile_one("(a|b)*abb");
    let (dfa, _sets) = afd.create_states().unwrap();
    let (mini, _blk) = minimize_dfa(&dfa);
    assert!(mini.transitions.len() <= dfa.transitions.len());
    for input in ["abb", "aababb", "ab", "", "abc", "babb"] {
        assert_eq!(simulate_afd(&dfa, input), simulate_afd(&mini, input));
    }
}

#[test]
fn minimization_is_idempotent_on_state_count() {
    let afd = compile_one("(a|b)*abb");
    let (dfa, _sets) = afd.create_states().unwrap();
    let (m1, _) = minimize_dfa(&dfa);
    let (m2, _) = minimize_dfa(&m1);
    assert_eq!(m1.transitions.len(), m2.transitions.len());
    assert_eq!(m1.accept, m2.accept);
    for input in ["abb", "aababb", "ab", "babb"] {
        assert_eq!(simulate_afd(&m1, input), simulate_afd(&m2, input));
    }
}

#[test]
fn whole_input_classification() {
    let d = generate(&vec!["if".to_string(), "[a-z]+".to_string()]).unwrap();
    assert_eq!(asignar_token(&d, "if"), Some(1));
    assert_eq!(asignar_token(&d, "ifx"), Some(2));
    assert_eq!(asignar_token(&d, "i"), Some(2));
    assert_eq!(asignar_token(&d, "0"), None);
    assert!(leer_cadena(&d, "if").is_some());
    assert!(leer_cadena(&d, "0").is_none());
}

#[test]
fn generate_afd_matches_create_states() {
    let afd = compile_one("ab");
    let (d1, s1) = afd.generate_afd().unwrap();
    let (d2, s2) = afd.create_states().unwrap();
    assert_eq!(d1.transitions, d2.transitions);
    assert_eq!(d1.accept, d2.accept);
    assert_eq!(s1, s2);
}

#[test]
fn state_listing_is_every_index() {
    let d = generate(&vec!["ab".to_string()]).unwrap();
    let all = get_all_states(&d);
    assert_eq!(all.len(), d.transitions.len());
    for (i, st) in all.iter().enumerate() {
        assert_eq!(*st, i);
    }
}

#[test]
fn graph_arena_names_and_edges() {
    let mut g = Graph::new();
    g.generate(3, vec![(0, 'a', 1), (1, 'b', 2), (0, 'c', 2)]);
    assert_eq!(g.get_root(), Some(0));
}

#[test]
fn empty_graph_has_no_root() {
    let mut g = Graph::new();
    g.generate(0, vec![]);
    assert_eq!(g.get_root(), None);
}

#[test]
fn token_type_names_come_from_the_rule_list() {
    let d = generate(&vec!["if".to_string(), "[a-z]+".to_string()]).unwrap();
    let names = vec!["IF".to_string(), "ID".to_string()];
    assert_eq!(get_token_type(&d, "if", &names), "IF");
    assert_eq!(get_token_type(&d, "iffy", &names), "ID");
    assert_eq!(get_token_type(&d, "9", &names), "UNKNOWN");
}
