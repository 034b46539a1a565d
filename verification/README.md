# copager

A constructible LR parser generator, verified with Verus.

A grammar (`grammar::RuleSet`) and a set of token kinds described by
regular expressions (`token::TokenSet`) give a lexer
(`regex_lexer::RegexLexer`) and one of four parsers: `lr0_table::LR0`,
`slr1_table::SLR1`, `lr1_table::LR1` and `lalr1::LALR1`. Each parser builds
an LR parse table (`table::LRTable`) and runs the table-driven driver
(`driver::LRDriver`) over the tokens, reporting `driver::ParseEvent`s: a
token read, a rule reduced, or an error.

Layout of `src/`:

- `grammar`, `rule_text`: grammars, and the text form `<lhs> ::= a <b> c` of
  a rule.
- `bitset`, `first`, `follow`, `director`: FIRST, FOLLOW and director sets,
  each specified as the least solution of its equations. `FollowSet::from`
  puts `EOF` (not FOLLOW of the left side) after a nonterminal where its
  rule may end; the SLR(1) builder uses `FollowSet::with_rule_ends`, where
  FOLLOW of the left side flows there too, since its parses need it; `rhs_first`: a
  one-pass approximation of FIRST sets over the terminals of right sides.
- `lr0`, `lr0_dfa`, `lr1`, `lr1_dfa`, `lalr1`: item sets, closures,
  successor sets, and the automata, specified as the canonical collections;
  `automaton`: what the automata have in common.
- `table`, `marks`: parse tables and their construction; a table is built
  exactly when no cell receives two different actions.
- `lr0_table`, `slr1_table`, `lr1_table`, `lalr1`: the four table builders
  and parsers. Each marks the completed items of the states' kernels (the
  LALR(1) states merge the LR(1) kernels), so an item completed only in a
  closure, as that of an empty rule, is never reduced.
- `lr1_configure`: an LR(1) builder over items with lookahead sets
  (`LR1Configure`), whose tables resolve a clash by taking the last
  reduction, and its parser, which stops at the first error.
- `driver`, `parser`: the driver step and the whole parse of a token
  sequence.
- `token`, `regex_lexer`: token sets and the lexer; what the `regex` crate
  finds is named, and the lexer is specified over those names.
- `error`: errors, with the source position they point at and the text of
  a report of that position.

`app/` holds what is not verified: printable errors, caches of tables with
serde (for both kinds of tables), the code generation behind the rule and
token derives, and the lex-then-parse pipeline.
