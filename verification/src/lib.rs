//! Scheduling, synchronisation and reporting engine of a measurement vantage.

pub mod clock;
pub mod digest;
pub mod document;
pub mod hashing;
pub mod index;
pub mod module;
pub mod operation;
pub mod query;
pub mod results;
pub mod schedule;
pub mod scripts;
pub mod seq_facts;

pub use hashing::{get_bucket_key, hash_string};
pub use module::{build_module, Module};
pub use query::{find_module, find_modules, find_operation, find_operations};
