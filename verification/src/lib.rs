//! Small verified solvers for a collection of daily programming puzzles.
//!
//! The largest of them compiles a table of grammar rules into a
//! nondeterministic automaton and matches words against it: `grammar` reads
//! the rules, `derivation` says what they mean, by derivation trees, and
//! `rewriting` shows that this is what they mean as a context-free grammar;
//! `construction` says what they are compiled into and proves that it accepts
//! what they derive (with `paths` and `fragments`), `sizing` decides whether
//! a table can be compiled, `nfa` is the automaton itself, and `theorems`
//! states what holds of it. The other modules are solvers of their own;
//! `multiples` shows that what `bus` computes is the least common multiple,
//! and `text` and `counting` hold what the solvers share.

pub mod text;
pub mod counting;
pub mod grammar;
pub mod derivation;
pub mod rewriting;
pub mod paths;
pub mod fragments;
pub mod construction;
pub mod sorting;
pub mod sizing;
pub mod nfa;
pub mod theorems;
pub mod cpu;
pub mod bag_rules;
pub mod expression;
pub mod expression_laws;
pub mod expense;
pub mod cipher;
pub mod adapters;
pub mod password;
pub mod slope;
pub mod boarding;
pub mod answers;
pub mod passport;
pub mod ship;
pub mod bus;
pub mod multiples;
pub mod cubes;
pub mod seating;
pub mod tickets;
pub mod docking;
pub mod memory_game;
