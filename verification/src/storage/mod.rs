//! Pages, heap files, the buffer pool and the tablespace manager.

pub mod page;
pub mod path_laws;
pub mod tuple;
pub mod fsm;
pub mod heap;
pub mod heap_order;
pub mod pool;
pub mod pool_laws;
pub mod pool_manager;
pub mod pool_model;
pub mod table_file;
pub mod table_work;
pub mod tablespace;
