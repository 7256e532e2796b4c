//! A log-structured columnar store: paged column storage with lineage-based
//! versioning, a hybrid hash and ordered secondary index, and the query layer
//! that keeps the two consistent.

pub mod columns;
pub mod db;
pub mod directory;
pub mod hash;
pub mod hashed;
pub mod index;
pub mod ordered;
pub mod page;
pub mod prime;
pub mod query;
pub mod sorted;
pub mod storage;
pub mod table;
pub mod theorems;
