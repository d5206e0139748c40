use regex_nfa::ast::Ast;
use regex_nfa::builder::{compile, state_count, try_compile};
use regex_nfa::nfa::Nfa;
use regex_nfa::parser::parse;
use regex_nfa::text::{display_vec, push_decimal};

fn automaton(pattern: &str) -> Nfa {
    try_compile(&parse(pattern).unwrap()).unwrap()
}

fn targets(nfa: &Nfa, state: usize, symbol: Option<char>) -> Vec<u32> {
    match nfa.targets(state, symbol) {
        Some(targets) => targets.clone(),
        None => Vec::new(),
    }
}

/// The epsilon edges of the automaton, as pairs of source and target.
fn epsilon_edges(nfa: &Nfa) -> Vec<(u32, u32)> {
    let mut edges = Vec::new();
    for s in 0..nfa.state_count() {
        for t in targets(nfa, s, None) {
            edges.push((s as u32, t));
        }
    }
    edges
}

#[test]
fn literal_compile() {
    let nfa = automaton("a");
    assert_eq!(nfa.state_count(), 2);
    assert_eq!(targets(&nfa, 0, Some('a')), vec![1]);
    assert_eq!(nfa.targets(0, None), None);
    assert_eq!(nfa.targets(0, Some('b')), None);
    assert_eq!(nfa.targets(1, Some('a')), None);
    assert_eq!(nfa.targets(1, None), None);
    assert_eq!(nfa.start_state(), 0);
    assert_eq!(nfa.final_states(), &vec![1]);
}

#[test]
fn empty_compile() {
    let nfa = try_compile(&Ast::Empty).unwrap();
    assert_eq!(nfa.state_count(), 2);
    assert_eq!(targets(&nfa, 0, None), vec![1]);
    assert_eq!(nfa.targets(1, None), None);
    assert_eq!(nfa.start_state(), 0);
    assert_eq!(nfa.final_states(), &vec![1]);
}

#[test]
fn concat_compile() {
    let nfa = automaton("ab");
    assert_eq!(nfa.state_count(), 4);
    assert_eq!(targets(&nfa, 0, Some('a')), vec![1]);
    assert_eq!(targets(&nfa, 2, Some('b')), vec![3]);
    assert_eq!(epsilon_edges(&nfa), vec![(1, 2)]);
    assert_eq!(nfa.start_state(), 0);
    assert_eq!(nfa.final_states(), &vec![3]);
}

#[test]
fn alternation_compile() {
    let nfa = automaton("a|b");
    assert_eq!(nfa.state_count(), 6);
    assert_eq!(targets(&nfa, 0, Some('a')), vec![1]);
    assert_eq!(targets(&nfa, 2, Some('b')), vec![3]);
    assert_eq!(targets(&nfa, 4, None), vec![0, 2]);
    let edges = epsilon_edges(&nfa);
    let into_merge: Vec<&(u32, u32)> = edges.iter().filter(|e| e.1 == 5).collect();
    assert_eq!(into_merge, vec![&(1, 5), &(3, 5)]);
    assert_eq!(edges.len(), 4);
    assert_eq!(nfa.start_state(), 4);
    assert_eq!(nfa.final_states(), &vec![5]);
}

#[test]
fn star_compile() {
    let nfa = automaton("a*");
    assert_eq!(nfa.state_count(), 4);
    assert_eq!(targets(&nfa, 0, Some('a')), vec![1]);
    assert_eq!(targets(&nfa, 2, None), vec![0, 3]);
    assert_eq!(targets(&nfa, 1, None), vec![0, 3]);
    assert_eq!(nfa.targets(3, None), None);
    assert_eq!(nfa.start_state(), 2);
    assert_eq!(nfa.final_states(), &vec![3]);
}

#[test]
fn plus_compile() {
    let nfa = automaton("a+");
    assert_eq!(nfa.state_count(), 4);
    assert_eq!(targets(&nfa, 2, None), vec![0]);
    assert_eq!(targets(&nfa, 1, None), vec![0, 3]);
    assert_eq!(nfa.start_state(), 2);
    assert_eq!(nfa.final_states(), &vec![3]);
}

#[test]
fn optional_compile() {
    let nfa = automaton("a?");
    assert_eq!(nfa.state_count(), 4);
    assert_eq!(targets(&nfa, 2, None), vec![0, 3]);
    assert_eq!(targets(&nfa, 1, None), vec![3]);
    assert_eq!(nfa.start_state(), 2);
    assert_eq!(nfa.final_states(), &vec![3]);
}

#[test]
fn group_adds_no_state() {
    let plain = automaton("a");
    let grouped = automaton("((a))");
    assert_eq!(grouped.state_count(), 2);
    assert_eq!(grouped.not_export(), plain.not_export());
}

#[test]
fn end_to_end() {
    let nfa = automaton("a(a|b)*");
    assert_eq!(nfa.state_count(), 10);
    assert_eq!(nfa.start_state(), 0);
    assert_eq!(nfa.final_states(), &vec![9]);
    assert_eq!(targets(&nfa, 0, Some('a')), vec![1]);
    assert_eq!(nfa.targets(0, None), None);
    assert_eq!(targets(&nfa, 1, None), vec![8]);
    assert_eq!(targets(&nfa, 8, None), vec![6, 9]);
    assert_eq!(targets(&nfa, 6, None), vec![2, 4]);
    assert_eq!(targets(&nfa, 2, Some('a')), vec![3]);
    assert_eq!(targets(&nfa, 4, Some('b')), vec![5]);
    assert_eq!(targets(&nfa, 3, None), vec![7]);
    assert_eq!(targets(&nfa, 5, None), vec![7]);
    assert_eq!(targets(&nfa, 7, None), vec![6, 9]);
    assert_eq!(nfa.targets(9, None), None);
}

#[test]
fn every_target_is_a_state() {
    for pattern in ["", "a", "ab", "a|b", "a*", "a(a|b)*", "((a|b)+c?)*|d"] {
        let nfa = automaton(pattern);
        let n = nfa.state_count() as u32;
        assert!(nfa.start_state() < n);
        for f in nfa.final_states() {
            assert!(*f < n);
        }
        for (_, t) in epsilon_edges(&nfa) {
            assert!(t < n);
        }
    }
}

#[test]
fn state_count_of_a_tree() {
    assert_eq!(state_count(&Ast::Empty), Some(2));
    assert_eq!(state_count(&parse("a").unwrap()), Some(2));
    assert_eq!(state_count(&parse("ab").unwrap()), Some(4));
    assert_eq!(state_count(&parse("a|b").unwrap()), Some(6));
    assert_eq!(state_count(&parse("a(a|b)*").unwrap()), Some(10));
    assert_eq!(state_count(&parse("(a)").unwrap()), Some(2));
    let ast = parse("a(a|b)*").unwrap();
    assert_eq!(compile(&ast).state_count(), 10);
}

#[test]
fn export_of_a_literal() {
    let nfa = automaton("a");
    assert_eq!(
        nfa.not_export(),
        "digraph {\n\trankdir=\"LR\"\n\t0 -> { 1 } [label=\"a\"]\n\n\t1 [shape=\"doublecircle\"]\n\t_ -> 0\n\t_ [style=\"invis\", width=0]\n\n}"
    );
}

#[test]
fn export_of_a_star() {
    let nfa = automaton("a*");
    assert_eq!(
        nfa.not_export(),
        "digraph {\n\trankdir=\"LR\"\n\t0 -> { 1 } [label=\"a\"]\n\t1 -> { 0 3 } [label=\"\u{25b}\"]\n\t2 -> { 0 3 } [label=\"\u{25b}\"]\n\n\t3 [shape=\"doublecircle\"]\n\t_ -> 2\n\t_ [style=\"invis\", width=0]\n\n}"
    );
}

#[test]
fn export_marks_epsilon_with_a_glyph() {
    let text = automaton("a|b").not_export();
    assert!(!text.contains("epsilon"));
    assert!(text.contains("[label=\"\u{25b}\"]"));
    assert!(!'\u{25b}'.is_ascii());
    assert!(text.starts_with("digraph {\n\trankdir=\"LR\"\n"));
    assert!(text.contains("\n\t5 [shape=\"doublecircle\"]"));
    assert!(text.contains("\n\t_ -> 4\n\t_ [style=\"invis\", width=0]\n"));
    assert!(text.ends_with("\n}"));
}

#[test]
fn export_of_an_empty_automaton() {
    let nfa = Nfa::new();
    assert_eq!(nfa.state_count(), 0);
    assert_eq!(nfa.start_state(), 0);
    assert_eq!(
        nfa.not_export(),
        "digraph {\n\trankdir=\"LR\"\n\n\t_ -> 0\n\t_ [style=\"invis\", width=0]\n\n}"
    );
}

#[test]
fn automaton_built_by_hand() {
    let mut nfa = Nfa::new();
    nfa.state(0, Some('a'), vec![1]);
    nfa.state(1, None, vec![2]);
    nfa.state(2, None, vec![3, 9]);
    nfa.state(3, None, vec![4, 6]);
    nfa.state(4, Some('a'), vec![5]);
    nfa.state(5, None, vec![8]);
    nfa.state(6, Some('b'), vec![7]);
    nfa.state(7, Some('a'), vec![8]);
    nfa.state(8, None, vec![3, 9]);
    nfa.finals(vec![9]);
    nfa.start(0);
    assert_eq!(nfa.state_count(), 10);
    assert_eq!(
        nfa.not_export(),
        "digraph {\n\trankdir=\"LR\"\n\
         \t0 -> { 1 } [label=\"a\"]\n\
         \t1 -> { 2 } [label=\"\u{25b}\"]\n\
         \t2 -> { 3 9 } [label=\"\u{25b}\"]\n\
         \t3 -> { 4 6 } [label=\"\u{25b}\"]\n\
         \t4 -> { 5 } [label=\"a\"]\n\
         \t5 -> { 8 } [label=\"\u{25b}\"]\n\
         \t6 -> { 7 } [label=\"b\"]\n\
         \t7 -> { 8 } [label=\"a\"]\n\
         \t8 -> { 3 9 } [label=\"\u{25b}\"]\n\
         \n\t9 [shape=\"doublecircle\"]\n\t_ -> 0\n\t_ [style=\"invis\", width=0]\n\n}"
    );
}

#[test]
fn state_grows_the_table() {
    let mut nfa = Nfa::new();
    nfa.state(2, Some('x'), vec![5, 1]);
    assert_eq!(nfa.state_count(), 6);
    assert_eq!(targets(&nfa, 2, Some('x')), vec![5, 1]);
    assert_eq!(nfa.targets(0, Some('x')), None);
    assert_eq!(nfa.targets(6, Some('x')), None);
    nfa.state(1, None, vec![]);
    assert_eq!(nfa.state_count(), 6);
    assert_eq!(nfa.targets(1, None), Some(&vec![]));
}

#[test]
fn state_keeps_the_other_symbols() {
    let mut nfa = Nfa::new();
    nfa.state(0, Some('a'), vec![1]);
    nfa.state(0, None, vec![2]);
    nfa.state(0, Some('b'), vec![0]);
    assert_eq!(targets(&nfa, 0, Some('a')), vec![1]);
    assert_eq!(targets(&nfa, 0, None), vec![2]);
    assert_eq!(targets(&nfa, 0, Some('b')), vec![0]);
    nfa.state(0, None, vec![1, 2]);
    assert_eq!(targets(&nfa, 0, Some('a')), vec![1]);
    assert_eq!(targets(&nfa, 0, None), vec![1, 2]);
    assert_eq!(targets(&nfa, 0, Some('b')), vec![0]);
    assert_eq!(
        nfa.not_export(),
        "digraph {\n\trankdir=\"LR\"\n\
         \t0 -> { 1 } [label=\"a\"]\n\
         \t0 -> { 1 2 } [label=\"\u{25b}\"]\n\
         \t0 -> { 0 } [label=\"b\"]\n\
         \n\t_ -> 0\n\t_ [style=\"invis\", width=0]\n\n}"
    );
}

#[test]
fn finals_and_start_grow_the_table() {
    let mut nfa = Nfa::new();
    nfa.finals(vec![3, 1]);
    assert_eq!(nfa.state_count(), 4);
    assert_eq!(nfa.final_states(), &vec![3, 1]);
    nfa.start(6);
    assert_eq!(nfa.state_count(), 7);
    assert_eq!(nfa.start_state(), 6);
    nfa.finals(vec![]);
    assert_eq!(nfa.state_count(), 7);
    assert_eq!(nfa.final_states(), &Vec::<u32>::new());
}

#[test]
fn add_state_gives_the_next_index() {
    let mut nfa = Nfa::new();
    assert_eq!(nfa.add_state(), 0);
    assert_eq!(nfa.add_state(), 1);
    assert_eq!(nfa.state_count(), 2);
    assert_eq!(nfa.targets(0, None), None);
}

#[test]
fn display_vec_lists_in_braces() {
    assert_eq!(display_vec(&[]), "{  }");
    assert_eq!(display_vec(&[7]), "{ 7 }");
    assert_eq!(display_vec(&[3, 9]), "{ 3 9 }");
    assert_eq!(display_vec(&[0, 10, 4294967295]), "{ 0 10 4294967295 }");
}

#[test]
fn decimal_digits() {
    let mut out = String::from("n=");
    push_decimal(&mut out, 0);
    out.push(',');
    push_decimal(&mut out, 9);
    out.push(',');
    push_decimal(&mut out, 10);
    out.push(',');
    push_decimal(&mut out, 1234567890);
    out.push(',');
    push_decimal(&mut out, u64::MAX);
    assert_eq!(out, "n=0,9,10,1234567890,18446744073709551615");
}
