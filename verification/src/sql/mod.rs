//! SQL: statements, values and their execution.

pub mod ast;
pub mod change;
pub mod change_laws;
pub mod define;
pub mod define_laws;
pub mod eval;
pub mod executor;
pub mod expr_laws;
pub mod laws;
pub mod parser;
pub mod query;
pub mod remake;
pub mod run_laws;
pub mod select_laws;
pub mod show_laws;
pub mod type_laws;
pub mod types;
