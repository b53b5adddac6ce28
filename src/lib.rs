//! A pattern-match query planner and its sorted-intersection executor.
//!
//! - `pattern`: the nested pattern tree (conjunctions, disjunctions, negations).
//! - `cost`: fixed-point cost arithmetic used by the planner.
//! - `graph`: the bipartite graph of variable- and pattern-vertices, with per-vertex costing.
//! - `construct`: registering a conjunction's variables and constraints in a graph.
//! - `plan`: beam search over pattern orderings and the complete plan it yields.
//! - `lower`: turning a complete plan into executable steps and instructions.
//! - `intersection`: the k-way sorted merge-join and its cartesian expansion.
//! - `steps`: check, assignment, negation and disjunction steps.
use vstd::prelude::*;

pub mod construct;
pub mod cost;
pub mod graph;
pub mod intersection;
pub mod lower;
pub mod pattern;
pub mod plan;
pub mod steps;

verus! {

} // verus!
