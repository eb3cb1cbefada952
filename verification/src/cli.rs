//! The options of the command line, as plain values.

use vstd::prelude::*;

verus! {

/// What the command line asks for: a clean-up, or a run with its options.
#[derive(Debug)]
pub struct Cli {
    pub command: Option<Command>,
    pub run: RunArgs,
}

/// The subcommands.
#[derive(Debug)]
pub enum Command {
    /// Delete earlier output files.
    Clean(CleanArgs),
}

/// The options of a run.
#[derive(Debug, Default)]
pub struct RunArgs {
    pub output: Option<String>,
    pub recursive: bool,
    pub no_recursive: bool,
    pub text: bool,
    pub exts: Vec<String>,
    pub ignore_exts: Vec<String>,
    pub include_globs: Vec<String>,
    pub exclude_globs: Vec<String>,
    pub tree: bool,
    pub hidden: bool,
    pub no_purge_pycache: bool,
    pub verbose: bool,
    pub debug: bool,
    pub no_dir_list: bool,
    pub include_binary: bool,
    pub no_metadata: bool,
    pub metadata_sort: MetadataSort,
    pub no_clean_concat: bool,
    pub inputs: Vec<String>,
}

/// The order of the entries of the metadata block.
#[derive(Copy, Clone, Debug, Eq, PartialEq, Structural)]
pub enum MetadataSort {
    /// Most lines first.
    Lines,
    /// Most characters first.
    Characters,
    /// As the files were found.
    Natural,
}

impl Default for MetadataSort {
    fn default() -> (sort: Self)
        ensures
            sort == MetadataSort::Lines,
    {
        MetadataSort::Lines
    }
}

/// The options of a clean-up.
#[derive(Debug, Default)]
pub struct CleanArgs {
    pub recursive: bool,
    pub no_recursive: bool,
    pub include_globs: Vec<String>,
    pub exclude_globs: Vec<String>,
    pub exts: Vec<String>,
    pub ignore_exts: Vec<String>,
    pub hidden: bool,
    pub verbose: bool,
    pub dirs: Vec<String>,
}

} // verus!
