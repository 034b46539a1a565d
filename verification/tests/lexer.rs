use copager::token::{TokenDef, TokenSet, Token};
use copager::regex_lexer::{RegexLexer, to_or_regex};

fn token_set(defs: &[(&[&str], &[&str])]) -> TokenSet {
    let mut tokens = Vec::new();
    for (texts, options) in defs {
        tokens.push(TokenDef {
            texts: texts.iter().map(|s| s.to_string()).collect(),
            options: options.iter().map(|s| s.to_string()).collect(),
        });
    }
    TokenSet { tokens }
}

fn texts<'a>(tokens: &[Token<'a>]) -> Vec<&'a str> {
    tokens.iter().map(|t| &t.src[t.body.0..t.body.1]).collect()
}

fn calc_tokens(trivia: &[(&str, &str)]) -> TokenSet {
    let mut defs: Vec<(Vec<&str>, Vec<&str>)> = vec![
        (vec![r"\+"], vec![]),
        (vec![r"-"], vec![]),
        (vec![r"\*"], vec![]),
        (vec![r"/"], vec![]),
        (vec![r"\("], vec![]),
        (vec![r"\)"], vec![]),
        (vec![r"[1-9][0-9]*"], vec![]),
    ];
    let mut t_texts = vec![];
    let mut t_opts = vec![];
    for (text, opt) in trivia {
        t_texts.push(*text);
        t_opts.push(*opt);
    }
    if !t_texts.is_empty() {
        defs.push((t_texts, t_opts));
    }
    let borrowed: Vec<(&[&str], &[&str])> = defs.iter().map(|(a, b)| (a.as_slice(), b.as_slice())).collect();
    token_set(&borrowed)
}

#[test]
fn check_compile_simple() {
    let mytoken = token_set(&[(&[r"\+"], &[]), (&[r"\-"], &[]), (&[r"[1-9]+"], &[])]);
    assert!(mytoken.ignore_token().is_empty());
    assert_eq!(mytoken.iter().len(), 3);

    assert_eq!(mytoken.as_str(0), r"^\+");
    assert_eq!(mytoken.as_str(1), r"^\-");
    assert_eq!(mytoken.as_str(2), r"^[1-9]+");
}

#[test]
fn simple_success() {
    let lexer = RegexLexer::init(&calc_tokens(&[])).unwrap();
    let tokens = lexer.run("1+2*3");
    assert_eq!(texts(&tokens), vec!["1", "+", "2", "*", "3"]);
}

#[test]
fn simple_failed() {
    let lexer = RegexLexer::init(&calc_tokens(&[])).unwrap();
    let tokens = lexer.run("1+2*stop3");
    assert_eq!(texts(&tokens), vec!["1", "+", "2", "*"]);
}

#[test]
fn with_trivia_success() {
    let lexer = RegexLexer::init(&calc_tokens(&[(r"[ \t\n]+", "trivia")])).unwrap();
    let tokens = lexer.run("1 + 2 * 3");
    assert_eq!(texts(&tokens), vec!["1", "+", "2", "*", "3"]);
}

#[test]
fn with_trivia_failed() {
    let lexer = RegexLexer::init(&calc_tokens(&[(r"[ \t\n]+", "trivia")])).unwrap();
    let tokens = lexer.run("1 + 2 * stop 3");
    assert_eq!(texts(&tokens), vec!["1", "+", "2", "*"]);
}

#[test]
fn with_pp_trivia_success() {
    const TEST_INPUT: &str = "
    // This is a comment
    // This is another comment
    1 + 2 * 3 // This is a comment
    ";

    let tokens = calc_tokens(&[
        (r"^( |\t|\n|(//(.*)\n))*", "pre_trivia"),
        (r"^( |\t|)*(//(.*)\n)", "post_trivia"),
    ]);
    let lexer = RegexLexer::init(&tokens).unwrap();
    let lexed_tokens = lexer.run(TEST_INPUT);
    let restored_input = lexed_tokens
        .iter()
        .map(|token| &token.src[token.full.0..token.full.1])
        .collect::<String>();
    assert_eq!(restored_input, TEST_INPUT);
}

#[test]
fn trivia_ranges_are_reported() {
    let lexer = RegexLexer::init(&calc_tokens(&[(r"[ \t\n]+", "trivia")])).unwrap();
    let tokens = lexer.run("1  + 2");
    assert_eq!(tokens.len(), 3);
    assert_eq!(tokens[0].kind, 6);
    assert_eq!(tokens[0].body, (0, 1));
    assert_eq!(tokens[0].full, (0, 1));
    assert_eq!(tokens[1].kind, 0);
    assert_eq!(tokens[1].body, (3, 4));
    assert_eq!(tokens[1].full, (1, 4));
    assert_eq!(tokens[2].body, (5, 6));
    assert_eq!(tokens[2].full, (4, 6));
}

#[test]
fn post_trivia_is_kept_without_its_newline() {
    let tokens = calc_tokens(&[(r"( |\t)*(//(.*)\n)", "post_trivia"), (r"[ \n]+", "trivia")]);
    let lexer = RegexLexer::init(&tokens).unwrap();
    let found = lexer.run("1 // one\n2");
    assert_eq!(texts(&found), vec!["1", "2"]);
    assert_eq!(found[0].full, (0, 8));
    assert_eq!(found[1].full, (8, 10));
}

#[test]
fn first_declared_token_wins() {
    let tokens = token_set(&[(&["[a-z]+"], &[]), (&["if"], &[])]);
    let lexer = RegexLexer::init(&tokens).unwrap();
    let found = lexer.run("if");
    assert_eq!(found.len(), 1);
    assert_eq!(found[0].kind, 0);
}

#[test]
fn bad_expression_is_an_error() {
    let tokens = token_set(&[(&["(a"], &[])]);
    assert!(RegexLexer::init(&tokens).is_err());
    let tokens = token_set(&[(&["a"], &[]), (&["(b"], &["trivia"])]);
    assert!(RegexLexer::init(&tokens).is_err());
}

#[test]
fn or_regex_joins_alternatives() {
    let list = vec!["a".to_string(), "b+".to_string(), "c".to_string()];
    assert_eq!(to_or_regex(&list), "^(a|b+|c)");
    assert_eq!(to_or_regex(&vec![]), "^()");
    assert_eq!(to_or_regex(&vec!["x".to_string()]), "^(x)");
}

#[test]
fn ignored_tokens_are_listed() {
    let tokens = token_set(&[(&["a"], &[]), (&["b"], &["ignored"]), (&["c"], &["ignored", "trivia"])]);
    assert_eq!(tokens.ignore_token(), vec![1, 2]);
}
