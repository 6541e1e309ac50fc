//! Splits a directory tree into size-bounded partitions and packs each
//! partition into its own archive.
pub mod archive;
pub mod partition;
pub mod paths;
