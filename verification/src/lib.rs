//! Course timetabling as a 0/1 linear model.
//!
//! [`model::build_model`] turns a request into the model an optimizer is to
//! solve: one binary variable per admissible placement, the hard rules as
//! linear constraints, and the objective. [`decode::decode_solution`] turns
//! the optimizer's valuation back into a schedule, returns it only if it
//! meets every hard rule, and scores it with [`score`] from the placements
//! alone. [`encoding`] proves that a valuation which meets the constraints
//! of the model always passes that check.

pub mod data;
pub mod decode;
pub mod encoding;
pub mod error;
pub mod feasibility;
pub mod grouping;
pub mod lookup;
pub mod model;
pub mod ordering;
pub mod score;
pub mod text;
