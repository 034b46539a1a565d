//! Verified core of a constructible LR parser generator: grammars, FIRST and
//! FOLLOW sets, LR item sets and automata, parse tables, the table-driven
//! parse driver and the regular-expression lexer.
pub mod grammar;
pub mod bitset;
pub mod first;
pub mod follow;
pub mod director;
pub mod lr0;
pub mod lr0_dfa;
pub mod automaton;
pub mod token;
pub mod error;
pub mod table;
pub mod driver;
pub mod marks;
pub mod parser;
pub mod lr0_table;
pub mod slr1_table;
pub mod lr1;
pub mod lr1_dfa;
pub mod lr1_table;
pub mod lalr1;
pub mod regex_lexer;
pub mod rule_text;
pub mod lr1_configure;
pub mod rhs_first;
