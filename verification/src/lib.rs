//! An embedded storage engine: a fixed-schema table backed by a paged
//! B+Tree index, with a transaction layer providing commit/abort semantics
//! over index mutations.

pub mod text;
pub mod row;
pub mod query;
pub mod node;
pub mod tree;
pub mod table;
pub mod transaction;
pub mod transaction_manager;
pub mod laws;
