//! Content-addressed integrity snapshots of a directory tree.
pub mod digest;
pub mod text;
pub mod file_info;
pub mod file_check;
pub mod digest_set;
pub mod reconcile;
pub mod policy;
pub mod stats;
pub mod check_run;
pub mod state;
pub mod cli;
