use copager::grammar::{Rule, RuleElem, RuleSet};
use copager::rule_text::{parse_rule, RuleName};
use copager::first::FirstSet;
use copager::follow::FollowSet;
use copager::director::DirectorSet;
use copager::rhs_first;

fn rule_set(terms: &[&str], groups: &[&[&str]]) -> RuleSet {
    let mut nonterms: Vec<String> = vec![];
    let mut parsed = vec![];
    for (tag, group) in groups.iter().enumerate() {
        for text in group.iter() {
            let r = parse_rule(text);
            if !nonterms.contains(&r.lhs) {
                nonterms.push(r.lhs.clone());
            }
            parsed.push((tag, r));
        }
    }
    for (_, r) in &parsed {
        for n in &r.rhs {
            if let RuleName::NonTerm(s) = n {
                if !nonterms.contains(s) {
                    nonterms.push(s.clone());
                }
            }
        }
    }
    let id = |s: &str| nonterms.iter().position(|n| n == s).unwrap();
    let rules = parsed
        .iter()
        .map(|(tag, r)| {
            let rhs = r
                .rhs
                .iter()
                .map(|n| match n {
                    RuleName::NonTerm(s) => RuleElem::NonTerm(id(s)),
                    RuleName::Term(s) => RuleElem::Term(terms.iter().position(|t| t == s).unwrap()),
                    RuleName::Epsilon => RuleElem::Epsilon,
                })
                .collect();
            Rule::new(Some(*tag), id(&r.lhs), rhs)
        })
        .collect();
    RuleSet { top: id(&parsed[0].1.lhs), rules, num_terms: terms.len(), num_nonterms: nonterms.len() }
}

fn eq_symbols(lhs: &[RuleElem], rhs: &[RuleElem]) -> bool {
    if lhs.len() != rhs.len() {
        println!("lhs: {:?}, rhs: {:?}", lhs, rhs);
        return false;
    }
    for lelem in lhs {
        if !rhs.contains(lelem) {
            println!("lhs: {:?}, rhs: {:?}", lhs, rhs);
            return false;
        }
    }
    true
}

// S = 0, A = 1, B = 2, C = 3; tokens A = 0, B = 1.
fn test_rules() -> RuleSet {
    rule_set(
        &["A", "B"],
        &[&["<S> ::= <A> <B>"], &["<A> ::= A"], &["<B> ::= <S> B"], &["<C> ::= "]],
    )
}

const A: RuleElem = RuleElem::Term(0);
const B: RuleElem = RuleElem::Term(1);

#[test]
fn first_set() {
    let ruleset = test_rules();
    let first_set = FirstSet::from(&ruleset);

    assert!(eq_symbols(&first_set.get(RuleElem::NonTerm(0)).unwrap(), &[A]));
    assert!(eq_symbols(&first_set.get(RuleElem::NonTerm(1)).unwrap(), &[A]));
    assert!(eq_symbols(&first_set.get(RuleElem::NonTerm(2)).unwrap(), &[A]));
    assert!(eq_symbols(&first_set.get(RuleElem::NonTerm(3)).unwrap(), &[RuleElem::Epsilon]));
}

#[test]
fn follow_follow_set() {
    let ruleset = test_rules();
    let follow_set = FollowSet::from(&ruleset);

    assert!(eq_symbols(&follow_set.get(0).unwrap(), &[B, RuleElem::EOF]));
    assert!(eq_symbols(&follow_set.get(1).unwrap(), &[A]));
    assert!(eq_symbols(&follow_set.get(2).unwrap(), &[RuleElem::EOF]));
    assert!(eq_symbols(&follow_set.get(3).unwrap(), &[]));
    assert!(follow_set.get(4).is_none());
}

#[test]
fn follow_sets_with_rule_ends_take_the_follow_of_the_left_side() {
    let ruleset = test_rules();
    let follow_set = FollowSet::with_rule_ends(&ruleset);

    assert!(eq_symbols(&follow_set.get(0).unwrap(), &[B, RuleElem::EOF]));
    assert!(eq_symbols(&follow_set.get(1).unwrap(), &[A]));
    // <B> ends <S> ::= <A> <B>, so FOLLOW(<S>) follows it too.
    assert!(eq_symbols(&follow_set.get(2).unwrap(), &[B, RuleElem::EOF]));
    assert!(eq_symbols(&follow_set.get(3).unwrap(), &[]));
    assert!(follow_set.get(4).is_none());
}

#[test]
fn director_follow_set() {
    let ruleset = test_rules();
    let director_set = DirectorSet::from(&ruleset);

    assert!(eq_symbols(&director_set.get(0).unwrap(), &[A]));
    assert!(eq_symbols(&director_set.get(1).unwrap(), &[A]));
    assert!(eq_symbols(&director_set.get(2).unwrap(), &[A]));
    assert!(eq_symbols(&director_set.get(3).unwrap(), &[]));
}

#[test]
fn simple_check_compile_simple() {
    // <expr> ::= <expr> Plus Number, ... with tokens Plus, Minus, Number.
    let rules = rule_set(
        &["Plus", "Minus", "Number"],
        &[&["<expr> ::= <expr> Plus Number", "<expr> ::= <expr> Minus Number", "<expr> ::= Number"]],
    );
    assert_eq!(rules.rules.len(), 3);
    assert_eq!(rules.rules[0].lhs, 0);
    assert_eq!(rules.rules[0].rhs, vec![RuleElem::NonTerm(0), RuleElem::Term(0), RuleElem::Term(2)]);
    assert_eq!(rules.rules[1].lhs, 0);
    assert_eq!(rules.rules[1].rhs, vec![RuleElem::NonTerm(0), RuleElem::Term(1), RuleElem::Term(2)]);
    assert_eq!(rules.rules[2].lhs, 0);
    assert_eq!(rules.rules[2].rhs, vec![RuleElem::Term(2)]);

    let text = parse_rule("<expr> ::= <expr> Plus Number");
    assert_eq!(text.lhs, "expr");
    assert!(matches!(&text.rhs[0], RuleName::NonTerm(s) if s == "expr"));
    assert!(matches!(&text.rhs[1], RuleName::Term(s) if s == "Plus"));
    assert!(matches!(&text.rhs[2], RuleName::Term(s) if s == "Number"));
}

#[test]
fn empty_right_side_is_epsilon() {
    let text = parse_rule("  <C>  ::=   ");
    assert_eq!(text.lhs, "C");
    assert_eq!(text.rhs.len(), 1);
    assert!(matches!(text.rhs[0], RuleName::Epsilon));
}

#[test]
fn further_separators_are_dropped() {
    let text = parse_rule("<a> ::= x ::= <b>\ty");
    assert_eq!(text.lhs, "a");
    assert_eq!(text.rhs.len(), 3);
    assert!(matches!(&text.rhs[0], RuleName::Term(s) if s == "x"));
    assert!(matches!(&text.rhs[1], RuleName::NonTerm(s) if s == "b"));
    assert!(matches!(&text.rhs[2], RuleName::Term(s) if s == "y"));
    let joined = parse_rule("<a> ::= x::=y");
    assert_eq!(joined.rhs.len(), 1);
    assert!(matches!(&joined.rhs[0], RuleName::Term(s) if s == "xy"));
}

#[test]
fn first_of_sequences() {
    let ruleset = test_rules();
    let first_set = FirstSet::from(&ruleset);
    // FIRST(<C> B) = {B}: C vanishes.
    assert!(eq_symbols(&first_set.get_by(&[RuleElem::NonTerm(3), B]), &[B]));
    // FIRST(<C>) = {EOF}: everything may vanish.
    assert!(eq_symbols(&first_set.get_by(&[RuleElem::NonTerm(3)]), &[RuleElem::EOF]));
    assert!(eq_symbols(&first_set.get_by(&[]), &[RuleElem::EOF]));
    assert!(first_set.get(RuleElem::NonTerm(9)).is_none());
    assert!(eq_symbols(&first_set.get(B).unwrap(), &[B]));
}

#[test]
fn augmented_grammar_adds_start_rule() {
    let ruleset = test_rules();
    let (aug, dummy) = ruleset.augmented();
    assert_eq!(dummy, 4);
    assert_eq!(aug.rules.len(), 5);
    assert_eq!(aug.top, 4);
    assert_eq!(aug.num_nonterms, 5);
    assert_eq!(aug.rules[4].lhs, 4);
    assert_eq!(aug.rules[4].rhs, vec![RuleElem::NonTerm(0)]);
    assert_eq!(aug.rules[4].tag, None);
    assert_eq!(ruleset.find_rule(0), vec![0]);
}

#[test]
fn first_first_set() {
    // S = 0, A = 1, B = 2; tokens A = 0, B = 1.
    let ruleset = rule_set(&["A", "B"], &[&["<S> ::= <A> <B>"], &["<A> ::= A"], &["<B> ::= <S> A B"]]);
    let first_set = rhs_first::FirstSet::try_from(&ruleset);

    assert_eq!(first_set.get(0), Some([0usize, 1].as_slice()));
    assert_eq!(first_set.get(1), Some([0usize].as_slice()));
    assert_eq!(first_set.get(2), Some([0usize, 1].as_slice()));
    assert_eq!(first_set.get(3), None);
}

#[test]
fn one_pass_takes_in_only_what_is_gathered() {
    // X = 0, Y = 1, Z = 2; token a = 0. Z's terminal reaches Y, not X.
    let ruleset = rule_set(&["a"], &[&["<X> ::= <Y>"], &["<Y> ::= <Z>"], &["<Z> ::= a"]]);
    let first_set = rhs_first::FirstSet::try_from(&ruleset);
    assert_eq!(first_set.get(0), Some([].as_slice()));
    assert_eq!(first_set.get(1), Some([0usize].as_slice()));
    assert_eq!(first_set.get(2), Some([0usize].as_slice()));
}

#[test]
fn terminals_anywhere_in_the_right_side_count() {
    // X = 0, Y = 1; tokens a = 0, b = 1, c = 2.
    let ruleset = rule_set(&["a", "b", "c"], &[&["<X> ::= <Y> a b", "<X> ::= b c"], &["<Y> ::= c"]]);
    let first_set = rhs_first::FirstSet::try_from(&ruleset);
    assert_eq!(first_set.get(0), Some([0usize, 1, 1, 2].as_slice()));
    assert_eq!(first_set.get(1), Some([2usize].as_slice()));
}
