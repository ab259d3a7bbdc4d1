//! The database: committed rows, transactions over them, and their indexes.

pub mod catalog;
pub mod ddl;
pub mod engine;
pub mod index_files;
pub mod queries;
pub mod recovery;
pub mod rowmap;
pub mod rows;
pub mod staleness;
pub mod topics;
pub mod txn;
pub mod versions;
