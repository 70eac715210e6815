//! The system catalog: its tables, how they are stored, and the cache of them.

use vstd::prelude::*;

pub mod bootstrap;
pub mod cache;
pub mod cache_laws;
pub mod config;
pub mod config_laws;
pub mod laws;
pub mod loader;
pub mod new_laws;
pub mod read_laws;
pub mod row;
pub mod types;

verus! {

/// The schema of the catalog's tables in a new database.
pub const SYSTEM_SCHEMA: &'static str = "RQSYS";

} // verus!
