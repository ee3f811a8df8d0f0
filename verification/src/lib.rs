//! Block-max pruning: a forward index whose documents are grouped into blocks,
//! and the scoring of one block against a query.

pub mod bench_doc;
pub mod index;
pub mod random;
