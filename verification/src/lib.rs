//! Verified core of Tailor: the Rust source writer behind code generation,
//! the reading of cargo's build output, and the decisions of a build session.

pub mod text;
pub mod rust;
pub mod expr;
pub mod style;
pub mod node;
pub mod json;
pub mod message;
pub mod session;
pub mod workspace;
pub mod run;
pub mod toolchain;
pub mod find;
pub mod order;
pub mod path;
pub mod quickly;
pub mod action;
pub mod workbench;
