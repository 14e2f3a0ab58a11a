//! Reading problem and domain descriptions written in HDDL.
pub mod lexing;
pub mod subtask_order;
pub mod problem_reader;
pub mod precondition_reader;
pub mod domain_reader;
pub mod method_reader;
pub mod domain_text;
