pub mod domain;
pub mod node;
pub mod problem;
