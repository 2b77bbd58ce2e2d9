//! Exhaustive verification of comparator networks by bit-parallel
//! enumeration of 0/1 states.
//!
//! - `parse` reads a network from text; `gen` builds classic networks.
//! - `dsu` is union-find by size; `plan` compiles a network into comparator
//!   jobs (inside one component) and combine jobs (merging two components).
//! - `exec` runs jobs on state sets of `(z, o)` pairs; `session` drives a
//!   whole verification step by step, with cancellation, emitting the
//!   messages of `result`.
//! - `semantics` and `soundness` prove that the final map marks exactly the
//!   pairs of wires some input leaves out of order, and that a comparator is
//!   marked used exactly when it swaps on some input.
//! - `layout` places comparators for drawing; `ids` tracks the current request.
use vstd::prelude::*;

pub mod bits;
pub mod dsu;
pub mod exec;
pub mod gen;
pub mod ids;
pub mod layout;
pub mod parse;
pub mod plan;
pub mod result;
pub mod semantics;
pub mod session;
pub mod soundness;

verus! {

} // verus!
