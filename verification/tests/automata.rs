use copager::automaton::Automaton;
use copager::first::FirstSet;
use copager::grammar::{Rule, RuleElem, RuleSet};
use copager::lalr1::LALR1DFA;
use copager::lr0_dfa::LR0DFA;
use copager::lr1_dfa::LR1DFA;

// <S> ::= <S> a | b ; S = 0; tokens a = 0, b = 1.
fn small_rules() -> RuleSet {
    RuleSet {
        top: 0,
        rules: vec![
            Rule::new(Some(0), 0, vec![RuleElem::NonTerm(0), RuleElem::Term(0)]),
            Rule::new(Some(0), 0, vec![RuleElem::Term(1)]),
        ],
        num_terms: 2,
        num_nonterms: 1,
    }
}

#[test]
fn automata_count_their_states_and_edges() {
    let (aug, _) = small_rules().augmented();
    let lr0 = LR0DFA::from(&aug);
    // states: start, after S, after b, after S a
    assert_eq!(lr0.len(), 4);
    assert_eq!(lr0.edges().len(), 3);
    assert!(lr0.edges().iter().all(|(from, to, _)| *from < lr0.len() && *to < lr0.len()));

    let first = FirstSet::from(&aug);
    let lr1 = LR1DFA::from(&aug, &first);
    assert_eq!(lr1.len(), 4);
    assert_eq!(lr1.edges().len(), 3);

    let lalr1 = LALR1DFA::from(&lr1);
    assert_eq!(lalr1.len(), 4);
    assert_eq!(lalr1.edges().len(), 3);
}

#[test]
fn a_state_holds_an_item_that_meets_a_condition() {
    let (aug, start) = small_rules().augmented();
    let lr0 = LR0DFA::from(&aug);
    // the first state holds the start item at the front of its rule
    assert!(lr0.nodes[0].contains_by(|item| item.rule == start && item.dot_pos == 0));
    assert!(!lr0.nodes[0].contains_by(|item| item.dot_pos == 2));
    // some state holds the completed item `S ::= S a .`
    assert!(lr0.nodes.iter().any(|node| node.contains_by(|item| item.rule == 0 && item.dot_pos == 2)));
}

#[test]
fn a_state_contains_the_items_of_a_rule() {
    let (aug, start) = small_rules().augmented();
    let lr0 = LR0DFA::from(&aug);
    assert!(lr0.nodes[0].contains(start));
    // the first state's kernel holds only the start item
    assert!(!lr0.nodes[0].contains(0));
    assert!(lr0.nodes.iter().any(|node| node.contains(1)));
}
