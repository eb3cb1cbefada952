//! The configuration of a run, resolved from the options of the command line.

use crate::cli::{Cli, MetadataSort};
use crate::strings::{
    chars_of, contains_char, lowered, skip_leading, string_of, to_lower_char, trim_chars, trimmed,
    without_leading,
};
use crate::text::strings;
use vstd::prelude::*;

verus! {

/// The two encodings of the document.
#[derive(Clone, Copy, Debug, Eq, PartialEq, Structural)]
pub enum OutputFormat {
    /// The XML-like structured form.
    Xml,
    /// The plain delimited text form.
    Text,
}

impl OutputFormat {
    /// The name of the format.
    pub fn as_str(self) -> (name: &'static str)
        ensures
            name@ == (match self {
                OutputFormat::Xml => "xml"@,
                OutputFormat::Text => "text"@,
            }),
    {
        match self {
            OutputFormat::Xml => "xml",
            OutputFormat::Text => "text",
        }
    }
}

/// Everything a run needs to know.
#[derive(Debug)]
pub struct RunConfig {
    pub output: Option<String>,
    pub recursive: bool,
    pub format: OutputFormat,
    pub exts: Vec<String>,
    pub ignore_exts: Vec<String>,
    pub include_globs: Vec<String>,
    pub exclude_globs: Vec<String>,
    pub show_tree: bool,
    pub include_hidden: bool,
    pub purge_pycache: bool,
    pub verbose: bool,
    pub debug: bool,
    pub show_dir_list: bool,
    pub show_metadata: bool,
    pub metadata_sort: MetadataSort,
    pub include_binary: bool,
    pub clean_concat_files: bool,
    pub inputs: Vec<String>,
    pub had_user_args: bool,
}

/// Options that contradict each other.
#[derive(Clone, Copy, Debug, Eq, PartialEq, Structural)]
pub enum ConfigError {
    /// Both `--recursive` and `--no-recursive` were given.
    RecursiveConflict,
}

impl ConfigError {
    /// The sentence that reports the error.
    pub fn message(&self) -> (text: &'static str)
        ensures
            text@ == "Cannot pass both --recursive and --no-recursive."@,
    {
        "Cannot pass both --recursive and --no-recursive."
    }
}

/// An extension as the lists hold it: trimmed, without leading dots, in
/// lower case.
pub open spec fn normal_ext(ext: Seq<char>) -> Seq<char> {
    lowered(without_leading(trimmed(ext), '.'))
}

/// The extensions of a list in their normal form, the empty ones left out.
pub open spec fn normal_exts(exts: Seq<Seq<char>>) -> Seq<Seq<char>>
    decreases exts.len(),
{
    if exts.len() == 0 {
        Seq::empty()
    } else if normal_ext(exts.last()).len() > 0 {
        normal_exts(exts.drop_last()).push(normal_ext(exts.last()))
    } else {
        normal_exts(exts.drop_last())
    }
}

/// A string holds one of the marks that make a pattern a glob.
pub open spec fn has_wildcard(s: Seq<char>) -> bool {
    s.contains('*') || s.contains('?') || s.contains('[')
}

/// The prefix that lets a bare name match at any depth.
pub open spec fn any_depth() -> Seq<char> {
    seq!['*', '*', '/']
}

/// An exclusion pattern as the filter takes it: trimmed, and a plain name
/// without separator made to match at any depth.
pub open spec fn normal_exclude(glob: Seq<char>) -> Seq<char> {
    let t = trimmed(glob);
    if !t.contains('/') && !has_wildcard(t) {
        any_depth() + t
    } else {
        t
    }
}

/// The exclusion patterns of a list in their normal form, the empty ones
/// left out.
pub open spec fn normal_excludes(globs: Seq<Seq<char>>) -> Seq<Seq<char>>
    decreases globs.len(),
{
    if globs.len() == 0 {
        Seq::empty()
    } else if normal_exclude(globs.last()).len() > 0 {
        normal_excludes(globs.drop_last()).push(normal_exclude(globs.last()))
    } else {
        normal_excludes(globs.drop_last())
    }
}

/// Brings one extension into its normal form.
pub fn normalize_ext(ext: &str) -> (normal: String)
    ensures
        normal@ == normal_ext(ext@),
{
    let chars = chars_of(ext);
    let bare = skip_leading(trim_chars(chars.as_slice()), '.');
    let mut out: Vec<char> = Vec::new();
    let mut i: usize = 0;
    while i < bare.len()
        invariant
            i <= bare.len(),
            out@.len() == i,
            forall|k: int| 0 <= k < i ==> out@[k] == crate::strings::lower_char(bare@[k]),
        decreases bare.len() - i,
    {
        out.push(to_lower_char(bare[i]));
        i += 1;
    }
    assert(out@ =~= lowered(bare@));
    string_of(out.as_slice())
}

/// Brings a list of extensions into normal form and drops the empty ones.
pub fn normalize_exts(exts: Vec<String>) -> (normal: Vec<String>)
    ensures
        strings(normal@) == normal_exts(strings(exts@)),
{
    let mut normal: Vec<String> = Vec::new();
    let mut i: usize = 0;
    assert(strings(exts@).take(0) =~= Seq::empty());
    assert(strings(normal@) =~= Seq::empty());
    while i < exts.len()
        invariant
            i <= exts.len(),
            strings(normal@) == normal_exts(strings(exts@).take(i as int)),
        decreases exts.len() - i,
    {
        let ghost before = strings(normal@);
        let ext = normalize_ext(exts[i].as_str());
        proof {
            let upto = strings(exts@).take(i + 1);
            assert(upto.drop_last() =~= strings(exts@).take(i as int));
            assert(upto.last() == exts@[i as int]@);
        }
        if !ext.as_str().is_empty() {
            normal.push(ext);
            assert(strings(normal@) =~= before.push(ext@));
        }
        i += 1;
    }
    assert(strings(exts@).take(i as int) =~= strings(exts@));
    normal
}

/// Brings one exclusion pattern into its normal form.
pub fn normalize_exclude_glob(glob: &str) -> (normal: String)
    ensures
        normal@ == normal_exclude(glob@),
{
    let chars = chars_of(glob);
    let t = trim_chars(chars.as_slice());
    let wildcard = contains_char(t, '*') || contains_char(t, '?') || contains_char(t, '[');
    let slash = contains_char(t, '/');
    if !slash && !wildcard {
        let mut out: Vec<char> = Vec::new();
        out.push('*');
        out.push('*');
        out.push('/');
        let mut i: usize = 0;
        while i < t.len()
            invariant
                i <= t.len(),
                out@ == any_depth() + t@.take(i as int),
            decreases t.len() - i,
        {
            out.push(t[i]);
            assert(t@.take(i + 1) =~= t@.take(i as int).push(t@[i as int]));
            i += 1;
        }
        assert(t@.take(i as int) =~= t@);
        string_of(out.as_slice())
    } else {
        string_of(t)
    }
}

/// Brings a list of exclusion patterns into normal form and drops the empty
/// ones.
pub fn normalize_exclude_globs(globs: Vec<String>) -> (normal: Vec<String>)
    ensures
        strings(normal@) == normal_excludes(strings(globs@)),
{
    let mut normal: Vec<String> = Vec::new();
    let mut i: usize = 0;
    assert(strings(globs@).take(0) =~= Seq::empty());
    assert(strings(normal@) =~= Seq::empty());
    while i < globs.len()
        invariant
            i <= globs.len(),
            strings(normal@) == normal_excludes(strings(globs@).take(i as int)),
        decreases globs.len() - i,
    {
        let ghost before = strings(normal@);
        let glob = normalize_exclude_glob(globs[i].as_str());
        proof {
            let upto = strings(globs@).take(i + 1);
            assert(upto.drop_last() =~= strings(globs@).take(i as int));
            assert(upto.last() == globs@[i as int]@);
        }
        if !glob.as_str().is_empty() {
            normal.push(glob);
            assert(strings(normal@) =~= before.push(glob@));
        }
        i += 1;
    }
    assert(strings(globs@).take(i as int) =~= strings(globs@));
    normal
}

impl RunConfig {
    /// The configuration that `cli` asks for.
    pub open spec fn resolves(&self, cli: Cli, had_user_args: bool) -> bool {
        &&& self.output == cli.run.output
        &&& self.recursive == !cli.run.no_recursive
        &&& self.format == (if cli.run.text {
            OutputFormat::Text
        } else {
            OutputFormat::Xml
        })
        &&& strings(self.exts@) == normal_exts(strings(cli.run.exts@))
        &&& strings(self.ignore_exts@) == normal_exts(strings(cli.run.ignore_exts@))
        &&& self.include_globs == cli.run.include_globs
        &&& strings(self.exclude_globs@) == normal_excludes(strings(cli.run.exclude_globs@))
        &&& self.show_tree == cli.run.tree
        &&& self.include_hidden == cli.run.hidden
        &&& self.purge_pycache == !cli.run.no_purge_pycache
        &&& self.verbose == cli.run.verbose
        &&& self.debug == cli.run.debug
        &&& self.show_dir_list == !cli.run.no_dir_list
        &&& self.show_metadata == !cli.run.no_metadata
        &&& self.metadata_sort == cli.run.metadata_sort
        &&& self.include_binary == cli.run.include_binary
        &&& self.clean_concat_files == !cli.run.no_clean_concat
        &&& if cli.run.inputs@.len() == 0 {
            strings(self.inputs@) == seq!["."@]
        } else {
            self.inputs == cli.run.inputs
        }
        &&& self.had_user_args == had_user_args
    }

    /// Resolves the options of a run. The two recursion flags contradict each
    /// other; everything else always resolves. Without inputs the current
    /// directory is the one input.
    pub fn from_cli(cli: Cli, had_user_args: bool) -> (resolved: Result<RunConfig, ConfigError>)
        ensures
            match resolved {
                Ok(config) => !(cli.run.recursive && cli.run.no_recursive) && config.resolves(
                    cli,
                    had_user_args,
                ),
                Err(error) => cli.run.recursive && cli.run.no_recursive && error
                    == ConfigError::RecursiveConflict,
            },
    {
        let run = cli.run;
        if run.recursive && run.no_recursive {
            return Err(ConfigError::RecursiveConflict);
        }
        let mut inputs = run.inputs;
        if inputs.len() == 0 {
            inputs.push(".".to_string());
            assert(strings(inputs@) =~= seq!["."@]);
        }
        let format = if run.text {
            OutputFormat::Text
        } else {
            OutputFormat::Xml
        };
        let exts = normalize_exts(run.exts);
        let ignore_exts = normalize_exts(run.ignore_exts);
        let exclude_globs = normalize_exclude_globs(run.exclude_globs);
        Ok(
            RunConfig {
                output: run.output,
                recursive: !run.no_recursive,
                format,
                exts,
                ignore_exts,
                include_globs: run.include_globs,
                exclude_globs,
                show_tree: run.tree,
                include_hidden: run.hidden,
                purge_pycache: !run.no_purge_pycache,
                verbose: run.verbose,
                debug: run.debug,
                show_dir_list: !run.no_dir_list,
                show_metadata: !run.no_metadata,
                metadata_sort: run.metadata_sort,
                include_binary: run.include_binary,
                clean_concat_files: !run.no_clean_concat,
                inputs,
                had_user_args,
            },
        )
    }
}

} // verus!
