use copager::grammar::{Rule, RuleElem, RuleSet};
use copager::rule_text::{parse_rule, RuleName};
use copager::token::{Token, TokenDef, TokenSet};
use copager::regex_lexer::RegexLexer;
use copager::driver::ParseEvent;
use copager::error::{ErrorBody, LRError, ParseError};
use copager::table::LRAction;
use copager::lr0_table::LR0;
use copager::slr1_table::SLR1;
use copager::lr1_table::LR1;
use copager::lr1_configure;
use copager::lalr1::LALR1;

fn token_set(defs: &[(&str, &[&str])]) -> TokenSet {
    let tokens = defs
        .iter()
        .map(|(text, options)| TokenDef {
            texts: vec![text.to_string()],
            options: options.iter().map(|s| s.to_string()).collect(),
        })
        .collect();
    TokenSet { tokens }
}

fn rule_set(terms: &[&str], groups: &[&[&str]]) -> RuleSet {
    let mut nonterms: Vec<String> = vec![];
    let mut parsed = vec![];
    for (tag, group) in groups.iter().enumerate() {
        for text in group.iter() {
            let r = parse_rule(text);
            if !nonterms.contains(&r.lhs) {
                nonterms.push(r.lhs.clone());
            }
            parsed.push((tag, r));
        }
    }
    for (_, r) in &parsed {
        for n in &r.rhs {
            if let RuleName::NonTerm(s) = n {
                if !nonterms.contains(s) {
                    nonterms.push(s.clone());
                }
            }
        }
    }
    let id = |s: &str| nonterms.iter().position(|n| n == s).unwrap();
    let rules = parsed
        .iter()
        .map(|(tag, r)| {
            let rhs = r
                .rhs
                .iter()
                .map(|n| match n {
                    RuleName::NonTerm(s) => RuleElem::NonTerm(id(s)),
                    RuleName::Term(s) => RuleElem::Term(terms.iter().position(|t| t == s).unwrap()),
                    RuleName::Epsilon => RuleElem::Epsilon,
                })
                .collect();
            Rule::new(Some(*tag), id(&r.lhs), rhs)
        })
        .collect();
    RuleSet { top: id(&parsed[0].1.lhs), rules, num_terms: terms.len(), num_nonterms: nonterms.len() }
}

const CALC_TERMS: [&str; 8] = ["Plus", "Minus", "Mul", "Div", "BracketL", "BracketR", "Num", "_Whitespace"];

fn calc_tokens() -> TokenSet {
    token_set(&[
        (r"\+", &[]),
        (r"-", &[]),
        (r"\*", &[]),
        (r"/", &[]),
        (r"\(", &[]),
        (r"\)", &[]),
        (r"[1-9][0-9]*", &[]),
        (r"[ \t\n]+", &["ignored"]),
    ])
}

fn calc_rules() -> RuleSet {
    rule_set(
        &CALC_TERMS,
        &[
            &["<expr> ::= <expr> Plus <term>", "<expr> ::= <expr> Minus <term>", "<expr> ::= <term>"],
            &["<term> ::= <term> Mul <num>", "<term> ::= <term> Div <num>", "<term> ::= <num>"],
            &["<num> ::= BracketL <expr> BracketR", "<num> ::= Num"],
        ],
    )
}

const LR0_TERMS: [&str; 6] = ["Plus", "Minus", "BracketL", "BracketR", "Num", "_Whitespace"];

fn lr0_tokens() -> TokenSet {
    token_set(&[
        (r"\+", &[]),
        (r"-", &[]),
        (r"\(", &[]),
        (r"\)", &[]),
        (r"[1-9][0-9]*", &[]),
        (r"[ \t\n]+", &["trivia"]),
    ])
}

fn lr0_rules() -> RuleSet {
    rule_set(
        &LR0_TERMS,
        &[
            &["<expr> ::= <expr> Plus <num>", "<expr> ::= <expr> Minus <num>", "<expr> ::= <num>"],
            &["<num> ::= BracketL <expr> BracketR", "<num> ::= Num"],
        ],
    )
}

fn lex<'a>(tokens: &TokenSet, input: &'a str) -> Vec<Token<'a>> {
    let lexer = RegexLexer::init(tokens).unwrap();
    let ignored = tokens.ignore_token();
    lexer.run(input).into_iter().filter(|t| !ignored.contains(&t.kind)).collect()
}

fn no_error(events: &[ParseEvent]) -> bool {
    !events.iter().any(|e| matches!(e, ParseEvent::Error(_)))
}

const CALC_OK: [&str; 10] = [
    "10",
    "10 + 20",
    "10 - 20",
    "10 * 20",
    "10 / 20",
    "10 + 20 * 30 - 40",
    "(10)",
    "((((10))))",
    "10 * (20 - 30)",
    "((10 + 20) * (30 / 40)) - 50",
];

const CALC_ERR: [&str; 7] = ["()", "(10 -", "10 +", "*", "10 20 + 30", "10 + 20 * 30 / 40 (", "(((10))"];

#[test]
fn simple_simple_success() {
    let parser = lr1_configure::LR1::try_from(&calc_rules());
    for input in &CALC_OK {
        assert!(no_error(&parser.run(&lex(&calc_tokens(), input))), "{}", input);
    }
}

#[test]
fn simple_simple_failure() {
    let parser = lr1_configure::LR1::try_from(&calc_rules());
    for input in &CALC_ERR {
        assert!(!no_error(&parser.run(&lex(&calc_tokens(), input))), "{}", input);
    }
}

#[test]
fn lr1_simple_success() {
    let parser = LR1::try_from(&calc_rules()).unwrap();
    for input in &CALC_OK {
        assert!(no_error(&parser.run(&lex(&calc_tokens(), input))), "{}", input);
    }
}

#[test]
fn lr1_simple_failure() {
    let parser = LR1::try_from(&calc_rules()).unwrap();
    for input in &CALC_ERR {
        assert!(!no_error(&parser.run(&lex(&calc_tokens(), input))), "{}", input);
    }
}

#[test]
fn lr0_simple_success() {
    const OK_INPUTS: [&str; 8] =
        ["10", "10 + 20", "10 - 20", "10 + 20 + 30", "(10)", "((((10))))", "10 + (20 - 30)", "(10 + 20) - 30"];
    let parser = LR0::init(&lr0_rules()).unwrap();
    for input in &OK_INPUTS {
        println!("input: {}", input);
        assert!(no_error(&parser.run(&lex(&lr0_tokens(), input))), "input: {}", input);
    }
}

#[test]
fn lr0_simple_failure() {
    const ERR_INPUTS: [&str; 7] = ["()", "(10 -", "10 +", "+", "10 20 + 30", "10 + 20 - 30 (", "(((10))"];
    let parser = LR0::init(&lr0_rules()).unwrap();
    for input in &ERR_INPUTS {
        assert!(!no_error(&parser.run(&lex(&lr0_tokens(), input))), "input: {}", input);
    }
}

#[test]
fn slr1_simple_success() {
    let parser = SLR1::try_from(&calc_rules()).unwrap();
    for input in &CALC_OK {
        println!("input: {}", input);
        assert!(no_error(&parser.run(&lex(&calc_tokens(), input))), "input: {}", input);
    }
}

#[test]
fn slr1_simple_failure() {
    let parser = SLR1::try_from(&calc_rules()).unwrap();
    for input in &CALC_ERR {
        assert!(!no_error(&parser.run(&lex(&calc_tokens(), input))), "input: {}", input);
    }
}

#[test]
fn lalr1_simple_success() {
    let parser = LALR1::init(&calc_rules()).unwrap();
    for input in &CALC_OK {
        assert!(no_error(&parser.run(&lex(&calc_tokens(), input))), "input: {}", input);
    }
}

#[test]
fn lalr1_simple_failure() {
    let parser = LALR1::init(&calc_rules()).unwrap();
    for input in &CALC_ERR {
        assert!(!no_error(&parser.run(&lex(&calc_tokens(), input))), "input: {}", input);
    }
}

#[test]
fn lr0_table_of_calc_grammar_has_a_conflict() {
    match LR0::init(&calc_rules()) {
        Err(e) => assert!(matches!(e.err, ErrorBody::LR(LRError::Conflilct { .. }))),
        Ok(_) => panic!("expected a conflict"),
    }
}

#[test]
fn parse_events_of_a_sum() {
    let parser = SLR1::try_from(&calc_rules()).unwrap();
    let tokens = lex(&calc_tokens(), "1 + 2");
    let events = parser.run(&tokens);
    let shape: Vec<String> = events
        .iter()
        .map(|e| match e {
            ParseEvent::Read(t) => format!("read {}", t.kind),
            ParseEvent::Parse { rule, len } => format!("parse {:?} {}", rule, len),
            ParseEvent::Error(_) => "error".to_string(),
        })
        .collect();
    assert_eq!(
        shape,
        vec![
            "read 6",
            "parse Some(2) 1",
            "parse Some(1) 1",
            "parse Some(0) 1",
            "read 0",
            "read 6",
            "parse Some(2) 1",
            "parse Some(1) 1",
            "parse Some(0) 3",
        ]
    );
}

#[test]
fn unexpected_token_and_end_are_reported() {
    let parser = SLR1::try_from(&calc_rules()).unwrap();
    let tokens = lex(&calc_tokens(), "10 +");
    let events = parser.run(&tokens);
    match events.last() {
        Some(ParseEvent::Error(e)) => {
            assert!(matches!(e.err, ErrorBody::LR(LRError::UnexpectedEOF)));
            assert!(e.diagnostics.is_none());
        },
        _ => panic!("expected an error"),
    }
    let tokens = lex(&calc_tokens(), "10 20");
    let events = parser.run(&tokens);
    let first_error = events.iter().find(|e| matches!(e, ParseEvent::Error(_)));
    match first_error {
        Some(ParseEvent::Error(e)) => {
            assert!(matches!(&e.err, ErrorBody::LR(LRError::UnexpectedToken { actual }) if actual == "\"TODO\""));
            let d = e.diagnostics.as_ref().unwrap();
            assert_eq!(d.range, (3, 5));
            assert_eq!(d.src, "10 20");
        },
        _ => panic!("expected an error"),
    }
}

#[test]
fn the_empty_word_is_never_reduced() {
    // The item of a rule for the empty word is completed in the closure of
    // a state, never in a kernel, so no state reduces by it: the empty
    // input is rejected at its end.
    let rules = rule_set(&CALC_TERMS, &[&["<list> ::= <list> Num", "<list> ::= "]]);
    let slr1 = SLR1::try_from(&rules).unwrap();
    assert_eq!(slr1.table.rules[1], (0, 1, Some(0)));
    let events = slr1.run(&lex(&calc_tokens(), ""));
    assert_eq!(events.len(), 1);
    assert!(matches!(&events[0], ParseEvent::Error(e) if matches!(e.err, ErrorBody::LR(LRError::UnexpectedEOF))));
}

#[test]
fn tables_agree_on_shape() {
    let rules = calc_rules();
    let t1 = LR1::try_from(&rules).unwrap().table;
    let t2 = LALR1::init(&rules).unwrap().table;
    let t3 = SLR1::try_from(&rules).unwrap().table;
    assert!(t2.action_table.len() <= t1.action_table.len());
    assert_eq!(t2.action_table.len(), t3.action_table.len());
    assert_eq!(t1.rules.len(), 9);
    assert_eq!(t1.rules[8], (3, 1, None));
    assert_eq!(t1.get_eof_action(0), LRAction::Empty);
}

#[test]
fn lr1_handles_a_grammar_that_is_not_slr1() {
    // S ::= L = R | R ; L ::= * R | id ; R ::= L
    let terms = ["Eq", "Star", "Id"];
    let rules = rule_set(
        &terms,
        &[&["<S> ::= <L> Eq <R>", "<S> ::= <R>"], &["<L> ::= Star <R>", "<L> ::= Id"], &["<R> ::= <L>"]],
    );
    assert!(SLR1::try_from(&rules).is_err());
    assert!(LR1::try_from(&rules).is_ok());
    assert!(LALR1::init(&rules).is_ok());
}

#[test]
fn lookahead_set_lr1_events_of_a_sum() {
    let parser = lr1_configure::LR1::try_from(&calc_rules());
    let events = parser.run(&lex(&calc_tokens(), "1+2"));
    let shape: Vec<String> = events
        .iter()
        .map(|e| match e {
            ParseEvent::Read(t) => format!("read {}", t.kind),
            ParseEvent::Parse { rule, len } => format!("parse {:?} {}", rule, len),
            ParseEvent::Error(_) => "error".to_string(),
        })
        .collect();
    assert_eq!(
        shape,
        vec![
            "read 6",
            "parse Some(2) 1",
            "parse Some(1) 1",
            "parse Some(0) 1",
            "read 0",
            "read 6",
            "parse Some(2) 1",
            "parse Some(1) 1",
            "parse Some(0) 3",
        ]
    );
}

#[test]
fn lookahead_set_lr1_stops_at_the_first_error() {
    let parser = lr1_configure::LR1::try_from(&calc_rules());
    let events = parser.run(&lex(&calc_tokens(), "1 2 3"));
    let errors = events.iter().filter(|e| matches!(e, ParseEvent::Error(_))).count();
    assert_eq!(errors, 1);
    match events.last() {
        Some(ParseEvent::Error(d)) => {
            assert!(matches!(d.err, ErrorBody::Parse(ParseError::UnexpectedToken { actual: 6 })));
            assert_eq!(d.diagnostics.as_ref().unwrap().range, (2, 3));
        }
        _ => panic!("the last event is not an error"),
    }
}

#[test]
fn lookahead_set_lr1_reports_the_end_of_the_input() {
    let parser = lr1_configure::LR1::try_from(&calc_rules());
    let events = parser.run(&lex(&calc_tokens(), "1 +"));
    match events.last() {
        Some(ParseEvent::Error(d)) => {
            assert!(matches!(d.err, ErrorBody::Parse(ParseError::UnexpectedEOF)));
            assert!(d.diagnostics.is_none());
        }
        _ => panic!("the last event is not an error"),
    }
}

#[test]
fn lookahead_set_lr1_tables_have_one_accepting_state() {
    let tables = lr1_configure::LR1Configure::new(&calc_rules());
    let n = tables.action_table.len();
    assert!(n > 0);
    assert_eq!(tables.eof_action_table.len(), n);
    assert_eq!(tables.goto_table.len(), n);
    assert!(tables.action_table.iter().all(|row| row.len() == 8));
    assert!(tables.goto_table.iter().all(|row| row.len() == 3));
    let accepting = tables.eof_action_table.iter().filter(|a| matches!(a, lr1_configure::LRAction::Accept)).count();
    assert_eq!(accepting, 1);
    assert!(tables
        .action_table
        .iter()
        .all(|row| row.iter().all(|a| !matches!(a, lr1_configure::LRAction::Accept))));
    // state 0 shifts `(` and `Num`, and has gotos for all three nonterminals
    assert!(matches!(tables.action_table[0][4], lr1_configure::LRAction::Shift(_)));
    assert!(matches!(tables.action_table[0][6], lr1_configure::LRAction::Shift(_)));
    assert!(matches!(tables.action_table[0][0], lr1_configure::LRAction::Empty));
    assert!(tables.goto_table[0].iter().all(|j| *j != 0));
}

#[test]
fn lookahead_set_lr1_never_reduces_an_empty_rule() {
    // <S> ::= a <A> ; <A> ::= (nothing). The empty rule's item is completed
    // only over `Epsilon`, which no token takes, so the end of the input is
    // rejected after `a`.
    let ruleset = rule_set(&["a"], &[&["<S> ::= a <A>"], &["<A> ::= "]]);
    let parser = lr1_configure::LR1::try_from(&ruleset);
    let tokens = vec![Token::new(0, "a", (0, 1), (0, 1))];
    let events = parser.run(&tokens);
    assert_eq!(events.len(), 2);
    assert!(matches!(events[0], ParseEvent::Read(_)));
    match &events[1] {
        ParseEvent::Error(d) => assert!(matches!(d.err, ErrorBody::Parse(ParseError::UnexpectedEOF))),
        _ => panic!("the end of the input was not rejected"),
    }
}
