//! Exact k-mer counting over DNA sequences.
//!
//! A [`KmerCountTable`] maps the hash of every canonical k-mer seen to the
//! number of times it was seen, and offers pruning, set algebra,
//! similarity measures and merging on top of that table.
pub mod dna;
pub mod error;
pub mod hashing;
pub mod kmer_iter;
pub mod laws;
pub mod model;
pub mod sorting;
pub mod table;

pub use error::TableError;
pub use kmer_iter::KmersAndHashesIter;
pub use table::{KmerCountTable, KmerCountTableIterator, TableParts, VERSION};
