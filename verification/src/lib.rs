//! A hierarchical task network (HTN) planner for HDDL planning problems.
//!
//! The library holds the planner's data model (`datastructures`), the
//! operations on search nodes (`toolbox`, `perform`), the start and the steps
//! of the search (`search`, `readiness`), the reading of HDDL descriptions
//! (`hddl`), the text of a plan (`solution`), a
//! small built-in example problem (`beginning`) and the properties that hold
//! across the operations (`laws`) and of the problem model (`model_laws`).
#![verifier::loop_isolation(false)]

pub mod datastructures;
pub mod text;
pub mod toolbox;
pub mod perform;
pub mod beginning;
pub mod solution;
pub mod laws;
pub mod model_laws;
pub mod search;
pub mod readiness;
pub mod hddl;
