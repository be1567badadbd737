//! A model checking library with explicit-state exploration and property verification.
//!
//! - Explicit-state exploration with breadth-first and depth-first search
//! - Reachability analysis
//! - Safety property verification (invariants)
//! - Liveness property verification (eventually properties)
//! - Counterexample generation for violated properties

pub mod seqs;
pub mod text;
pub mod state;
pub mod model;
pub mod transition;
pub mod property;
pub mod explorer;
pub mod checker;
pub mod laws;

pub use state::{State, StateId, StateGraph, VarMap};
pub use model::GraphModel;
pub use transition::Transition;
pub use property::{eval_condition, Property, PropertyResult, SafetyProp, LivenessProp};
pub use explorer::{ExplorationResult, SearchStrategy, StateExplorer};
pub use checker::{ModelChecker, ModelCheckStats};
