//! An explicit-state model checker for user-defined transition systems.
//!
//! Given a model — a set of initial states, a function enumerating the
//! actions available in a state, and a deterministic successor function —
//! the checker performs exhaustive reachability exploration while tracking
//! a set of temporal properties. For each property it either exhausts the
//! reachable portion of the state graph without producing a witness, or
//! records a *discovery*: a concrete state path that demonstrates the
//! property (an example) or refutes it (a counterexample).
//!
//! States are deduplicated by 64-bit fingerprints held in a visited map
//! from fingerprint to parent fingerprint; the same map doubles as the
//! reverse spanning tree from which discovery paths are reconstructed.

mod checker;
mod ebits;
mod model;
mod path;

pub use model::{Expectation, Model, Property};
pub use model::{fp_injective, has_edge, is_trace, next_steps, reachable, spec_next_steps};
pub use path::Path;
pub use path::{
    chain_wf, lemma_actions_round_trip, lemma_fingerprint_round_trip, path_actions, path_wf,
    spec_from_actions, spec_replay, spec_replayable,
};
pub use checker::{all_some, first_prop_index, spec_witnesses, Checker, CheckerBuilder, Strategy};
