//! Core runtime of a node-graph visual programming language: identifiers, objects,
//! the class registry, node storage, program loading and the step-driven executor.
pub mod class;
pub mod executor;
pub mod module;
pub mod node;
pub mod object;
pub mod program;
pub mod socket;
pub mod stdlib;
pub mod text;

pub use executor::{Executor, StepError};
