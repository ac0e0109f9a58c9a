//! Layout engine for display outputs: geometry, pairwise relations, the
//! layout model, the keyed store of arrangements, the decisions of the
//! daemon, and the solver that places outputs from their relations.

pub mod constraint;
pub mod controller;
pub mod database;
pub mod geometry;
pub mod layout;
pub mod objective;
pub mod output;
pub mod placement;
pub mod problem;
pub mod program;
pub mod randr;
pub mod relation;
pub mod rounding;
pub mod soundness;
