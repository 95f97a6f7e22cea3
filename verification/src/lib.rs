#![verifier::loop_isolation(false)]
//! A propositional tautology prover built around a saturation-style
//! "coalescence" search: a formula is normalised, a frontier of sequents is
//! grown from atom-level axioms by the rewrite rules `spawn`, `fire` and
//! `project`, and on success a proof DAG is extracted by walking backwards
//! from the root sequent to the axioms.

pub mod coalesceable;
pub mod expression;
pub mod laws;
pub mod order;
pub mod parseable;
pub mod proveable;

use vstd::prelude::*;

verus! {

} // verus!
