//! Loads the NCBI taxonomy dump into records, computes each broad record's
//! descendant closure, and prepares the rows that a relational store takes
//! in bounded batches.

pub mod batch;
pub mod cache;
pub mod closure;
pub mod dump;
pub mod lock;
pub mod rank;
pub mod record;
pub mod text;

pub use dump::{_load_taxonomy_from_dump, LoadError, Taxonomy};
pub use rank::TaxonomyRank;
pub use record::{TaxonomyRecord, TaxonomyRelation};
