//! The configuration of a run, as the command line gives it.
use vstd::prelude::*;

verus! {

/// A compiled pattern of the regex crate, carried through opaque.
#[verifier::external_type_specification]
#[verifier::external_body]
pub struct ExRegex(regex::Regex);

/// The error of regex::Regex::new, carried through opaque.
#[verifier::external_type_specification]
#[verifier::external_body]
pub struct ExRegexError(regex::Error);

/// Compiles an exclusion pattern.
/// Relies on regex::Regex::new: an error for a pattern it cannot compile.
#[verifier::external_body]
pub fn regex(arg: String) -> Result<regex::Regex, regex::Error> {
    regex::Regex::new(&arg)
}

/// Options of the `update` command.
pub struct Update {}

/// The command to run.
pub enum Cmd {
    /// Update the snapshot.
    Update {
        /// Read every file, whatever its metadata.
        read_all_files: bool,
        /// The directory of the snapshots.
        state_dir: String,
        /// The tree to check; the current directory where absent.
        directory: Option<String>,
    },
    /// Verify the tree against the snapshot.
    Verify {
        /// Tolerate snapshot files that are gone.
        ignore_missing: bool,
        /// Check only that contents are present, not their paths.
        only_presence: bool,
        /// The directory of the snapshots.
        state_dir: String,
        /// The tree to check; the current directory where absent.
        directory: Option<String>,
    },
}

/// The options of a run.
pub struct CommandlineOptions {
    /// Workers that read files; one where absent.
    pub threads: Option<usize>,
    /// Directory names to leave out.
    pub exclude_directory: Vec<regex::Regex>,
    /// File names to leave out.
    pub exclude_file: Vec<regex::Regex>,
    /// Full paths to leave out.
    pub exclude_path: Vec<regex::Regex>,
    pub cmd: Cmd,
}

} // verus!
