//! A small relational database: slotted pages, heap files, buffer pools, a catalog and SQL.

pub mod bytes;
pub mod catalog;
pub mod db;
pub mod error;
pub mod shell;
pub mod sql;
pub mod storage;
pub mod text;
pub mod transaction;

pub use db::{create_database, open_database, DbState};
