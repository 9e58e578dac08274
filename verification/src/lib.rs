//! A prover for propositional logic: from assumptions and a conclusion it
//! searches, breadth first, for a proof in natural deduction.
//!
//! `expression` holds the formulas, `lines` the steps of a proof, `parser`
//! the grammar of formulas.  `derivation` says what the rules derive and how
//! a search ends; `possible` finds the ways to extend a partial proof and
//! `prover` searches.  `report` writes proofs and failures out.  The
//! remaining modules prove what holds of all this: `soundness` that proofs
//! rest on what they cite, `semantics` that what is proved follows,
//! `subproofs`, `outcomes` and `budget` what searches do, `roundtrip` that
//! texts read back, `sequences` and `tuples` the facts about runs of values
//! that these need.

pub mod budget;
pub mod derivation;
pub mod error;
pub mod expression;
pub mod lines;
pub mod outcomes;
pub mod parser;
pub mod possible;
pub mod prover;
pub mod report;
pub mod roundtrip;
pub mod semantics;
pub mod sequences;
pub mod soundness;
pub mod subproofs;
pub mod tuples;
