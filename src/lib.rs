//! A small regular-expression engine over UTF-8 code units.
//!
//! A pattern is split into code units, parsed into an [`expression::Expression`],
//! turned into an automaton with epsilon edges ([`nfa::NFA`]), collapsed into
//! an epsilon-free automaton, and simulated with one boolean matrix per symbol
//! ([`regex::Regex`]).
//!
//! The dialect knows literals, concatenation, grouping with parentheses and
//! alternation. Unlike POSIX or PCRE, `|` binds only the two atoms next to it:
//! `ab|cd` means `a(b|c)d`; write `(ab)|(cd)` to alternate whole sequences.

pub mod error;
pub mod expression;
pub mod nfa;
pub mod regex;
pub mod utf_parser;
