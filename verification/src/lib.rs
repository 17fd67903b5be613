//! Locates duplicate and near-duplicate media files in a file tree.
//!
//! The crate fingerprints each file with an exact content digest and, for
//! visual media, a perceptual digest; it then partitions the files into
//! exact-duplicate groups and near-duplicate clusters and assembles a
//! report of both.

pub mod clusterer;
pub mod codec;
pub mod diff;
pub mod digest;
pub mod false_positives;
pub mod files;
pub mod interactive;
pub mod paths;
pub mod report;
