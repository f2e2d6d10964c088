//! Deny rules over the dependency closure of a lockfile.
//!
//! The library builds, for every package of a lockfile, the set of packages it
//! depends on, directly or through others, each with one witness path, and
//! reports every deny rule that this closure breaks.
//!
//! - `deps` holds the executable code: the graph, its construction and the
//!   evaluation of the rules.
//! - `model` and `rules` say what the graph and the outcome of the rules are.
//! - `invariants`, `closure` and `laws` prove what holds of every lockfile and
//!   of every set of rules.
//! - `args` and `report` read the command line and sum up a run.

pub mod args;
pub mod closure;
pub mod deps;
pub mod invariants;
pub mod laws;
pub mod model;
pub mod report;
pub mod rules;

pub use args::{parse_args, Args};
pub use deps::{
    build_dep_graph, evaluate, fill_transitive, run_lints, CargoLock, Deny, Dep, DepGraph, Lints,
    LookupError, Package, PackageDeps, Violation,
};
pub use report::summary;
