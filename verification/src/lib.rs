//! Headless tooling for standard SysML v2 textual models: syntax checking,
//! a parser-neutral project representation, a bounded requirements-structure
//! validation profile, and a small text-backed element/relationship model.

pub mod canonical;
pub mod check;
pub mod error;
pub mod growth;
pub mod idset;
pub mod lower;
pub mod lowering;
pub mod marks;
pub mod model;
pub mod order;
pub mod project;
pub mod queries;
pub mod render;
pub mod report;
pub mod resolve;
pub mod strings;
pub mod syntax;
pub mod validate;
