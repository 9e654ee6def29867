//! Verified core of `docent`, a document and code-history indexer.

pub mod index;
pub mod text;
pub mod cli;
pub mod init;
pub mod toml_doc;
pub mod hashing;
pub mod models;
pub mod chunking;
pub mod merge_laws;
pub mod outcome;
pub mod paths;
pub mod merge_values;
pub mod cli_laws;
pub mod serve_prep;
