//! Finite automata: conversion of a nondeterministic automaton, which may
//! move spontaneously and may have several targets for one state and
//! symbol, into a deterministic one by the subset construction, and
//! simulation of a deterministic automaton on an input word.
//!
//! The automata and their collections are in `nfa`, `dfa`, `multi_nfa`,
//! `state_set` and `table`. Their mathematical model is in `model`, and
//! `laws` states what holds of the conversion and of the simulation. The
//! other modules hold the facts that the proofs rest on.

pub mod label;
pub mod prefix;
pub mod table;
pub mod state_set;
pub mod model;
pub mod nfa;
pub mod multi_nfa;
pub mod dfa;
pub mod closure;
pub mod discovery;
pub mod powerset;
pub mod canonical;
pub mod runs;
pub mod laws;

pub use dfa::{Dfa, Language, StateTransitions, Transitions};
pub use model::{Acceptance, Symbol, EPSILON};
pub use multi_nfa::{
    MultiNfa, MultiNfaStateTransitions, MultiNfaTransitions, MultiState, MultiStates,
};
pub use nfa::{Alphabet, Nfa, NfaStateTransitions, NfaTransitions, States};
pub use state_set::{State, StateSet};
