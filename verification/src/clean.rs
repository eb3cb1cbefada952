//! The clean-up: which earlier documents are deleted.

use crate::cli::CleanArgs;
use crate::cleanup::{concat_output_name, is_concat_output};
use crate::config::{
    normal_excludes, normal_exts, normalize_exclude_globs, normalize_exts, ConfigError,
};
use crate::discover::{candidate_set_of, finish_candidates};
use crate::filter::{is_listed, listed};
use crate::globs::{
    any_match, build_globset, compiled, matches_any, source_of, usable, GlobError, GlobMatcher,
};
use crate::paths::{base_name, ext_lower, hidden_path, is_hidden_path, path_ext_lower};
use crate::text::{strings, utf8};
use vstd::prelude::*;

verus! {

/// What a clean-up is to do.
#[derive(Debug)]
pub struct CleanPlan {
    /// The directories are searched with all that lies below them.
    pub recursive: bool,
    /// The directories to search.
    pub dirs: Vec<String>,
    /// The extensions that are deleted; all, if there is none.
    pub exts: Vec<String>,
    /// The extensions that are kept.
    pub ignore_exts: Vec<String>,
    /// The patterns of which a deleted file matches one, if there are any.
    pub include_globs: Vec<String>,
    /// The patterns of which a deleted file matches none.
    pub exclude_globs: Vec<String>,
    /// Hidden files are deleted too.
    pub hidden: bool,
    /// Each deletion is reported.
    pub verbose: bool,
}

/// The compiled patterns of a clean-up.
pub struct CleanMatchers {
    pub includes: Option<GlobMatcher>,
    pub excludes: Option<GlobMatcher>,
}

impl CleanPlan {
    /// The plan that the options ask for.
    pub open spec fn resolves(&self, args: CleanArgs) -> bool {
        &&& self.recursive == !args.no_recursive
        &&& if args.dirs@.len() == 0 {
            strings(self.dirs@) == seq!["."@]
        } else {
            self.dirs == args.dirs
        }
        &&& strings(self.exts@) == normal_exts(strings(args.exts@))
        &&& strings(self.ignore_exts@) == normal_exts(strings(args.ignore_exts@))
        &&& self.include_globs == args.include_globs
        &&& strings(self.exclude_globs@) == normal_excludes(strings(args.exclude_globs@))
        &&& self.hidden == args.hidden
        &&& self.verbose == args.verbose
    }

    /// Resolves the options of a clean-up. The two recursion flags
    /// contradict each other; everything else always resolves. Without
    /// directories the current directory is searched.
    pub fn from_args(args: CleanArgs) -> (resolved: Result<CleanPlan, ConfigError>)
        ensures
            match resolved {
                Ok(plan) => !(args.recursive && args.no_recursive) && plan.resolves(args),
                Err(error) => args.recursive && args.no_recursive && error
                    == ConfigError::RecursiveConflict,
            },
    {
        if args.recursive && args.no_recursive {
            return Err(ConfigError::RecursiveConflict);
        }
        let mut dirs = args.dirs;
        if dirs.len() == 0 {
            dirs.push(".".to_string());
            assert(strings(dirs@) =~= seq!["."@]);
        }
        Ok(
            CleanPlan {
                recursive: !args.no_recursive,
                dirs,
                exts: normalize_exts(args.exts),
                ignore_exts: normalize_exts(args.ignore_exts),
                include_globs: args.include_globs,
                exclude_globs: normalize_exclude_globs(args.exclude_globs),
                hidden: args.hidden,
                verbose: args.verbose,
            },
        )
    }
}

/// Both pattern lists of a plan give a matcher.
pub open spec fn clean_globs_usable(plan: CleanPlan) -> bool {
    usable(strings(plan.include_globs@)) && usable(strings(plan.exclude_globs@))
}

/// The matchers are those of the plan.
pub open spec fn matchers_of(plan: CleanPlan, matchers: CleanMatchers) -> bool {
    &&& source_of(matchers.includes) == compiled(strings(plan.include_globs@))
    &&& source_of(matchers.excludes) == compiled(strings(plan.exclude_globs@))
}

/// An earlier document is deleted unless it is hidden and hidden files are
/// spared, its extension is not among those asked for or is among those
/// kept, no inclusion pattern matches it, or an exclusion pattern does.
pub open spec fn deletes(plan: CleanPlan, matchers: CleanMatchers, path: Seq<char>) -> bool {
    let bytes = utf8(path);
    &&& plan.hidden || !hidden_path(bytes)
    &&& plan.exts@.len() == 0 || listed(plan.exts@, ext_lower(bytes))
    &&& !listed(plan.ignore_exts@, ext_lower(bytes))
    &&& matchers.includes is None || any_match(source_of(matchers.includes), bytes)
    &&& !any_match(source_of(matchers.excludes), bytes)
}

/// The paths of the list that the plan deletes, in their order.
pub open spec fn doomed(plan: CleanPlan, matchers: CleanMatchers, paths: Seq<Seq<char>>) -> Seq<
    Seq<char>,
>
    decreases paths.len(),
{
    if paths.len() == 0 {
        Seq::empty()
    } else if deletes(plan, matchers, paths.last()) {
        doomed(plan, matchers, paths.drop_last()).push(paths.last())
    } else {
        doomed(plan, matchers, paths.drop_last())
    }
}

/// The paths of the list that name an earlier document, in their order.
pub open spec fn concat_outputs(paths: Seq<Seq<char>>) -> Seq<Seq<char>>
    decreases paths.len(),
{
    if paths.len() == 0 {
        Seq::empty()
    } else if concat_output_name(base_name(utf8(paths.last()))) {
        concat_outputs(paths.drop_last()).push(paths.last())
    } else {
        concat_outputs(paths.drop_last())
    }
}

/// Compiles the patterns of a plan, the inclusion patterns first. The first
/// list that gives no matcher is reported.
pub fn compile_clean_matchers(plan: &CleanPlan) -> (built: Result<CleanMatchers, GlobError>)
    ensures
        built is Ok <==> clean_globs_usable(*plan),
        match built {
            Ok(matchers) => matchers_of(*plan, matchers),
            Err(error) => {
                ||| !usable(strings(plan.include_globs@)) && error.describes(
                    strings(plan.include_globs@),
                )
                ||| usable(strings(plan.include_globs@)) && !usable(strings(plan.exclude_globs@))
                    && error.describes(strings(plan.exclude_globs@))
            },
        },
{
    let includes = match build_globset(&plan.include_globs) {
        Ok(set) => set,
        Err(error) => {
            return Err(error);
        },
    };
    let excludes = match build_globset(&plan.exclude_globs) {
        Ok(set) => set,
        Err(error) => {
            return Err(error);
        },
    };
    Ok(CleanMatchers { includes, excludes })
}

/// The files among `paths` that name an earlier document.
pub fn find_concat_files(paths: &Vec<String>) -> (found: Vec<String>)
    ensures
        strings(found@) == concat_outputs(strings(paths@)),
{
    let mut found: Vec<String> = Vec::new();
    let mut i: usize = 0;
    assert(strings(paths@).take(0) =~= Seq::empty());
    assert(strings(found@) =~= Seq::empty());
    while i < paths.len()
        invariant
            i <= paths.len(),
            strings(found@) == concat_outputs(strings(paths@).take(i as int)),
        decreases paths.len() - i,
    {
        let ghost before = strings(found@);
        proof {
            let upto = strings(paths@).take(i + 1);
            assert(upto.drop_last() =~= strings(paths@).take(i as int));
            assert(upto.last() == paths@[i as int]@);
        }
        if is_concat_output(paths[i].as_str()) {
            found.push(paths[i].clone());
            assert(strings(found@) =~= before.push(paths@[i as int]@));
        }
        i += 1;
    }
    assert(strings(paths@).take(i as int) =~= strings(paths@));
    found
}

/// Tells whether the plan deletes an earlier document.
pub fn should_delete(plan: &CleanPlan, matchers: &CleanMatchers, path: &str) -> (delete: bool)
    ensures
        delete == deletes(*plan, *matchers, path@),
{
    if !plan.hidden && is_hidden_path(path) {
        return false;
    }
    let ext = path_ext_lower(path);
    if plan.exts.len() > 0 && !is_listed(&plan.exts, ext.as_slice()) {
        return false;
    }
    if is_listed(&plan.ignore_exts, ext.as_slice()) {
        return false;
    }
    if matchers.includes.is_some() && !matches_any(&matchers.includes, path.as_bytes()) {
        return false;
    }
    if matches_any(&matchers.excludes, path.as_bytes()) {
        return false;
    }
    true
}

/// The earlier documents that a clean-up deletes: those among `found` that
/// the plan deletes, each once, in the version-aware order.
pub fn files_to_delete(plan: &CleanPlan, matchers: &CleanMatchers, found: &Vec<String>) -> (doomed_files:
    Vec<String>)
    ensures
        exists|set: Seq<Seq<char>>| #[trigger]
            candidate_set_of(strings(found@), set) && strings(doomed_files@) == doomed(
                *plan,
                *matchers,
                set,
            ),
{
    let set = finish_candidates(found);
    let mut doomed_files: Vec<String> = Vec::new();
    let mut i: usize = 0;
    assert(strings(set@).take(0) =~= Seq::empty());
    assert(strings(doomed_files@) =~= Seq::empty());
    while i < set.len()
        invariant
            i <= set.len(),
            strings(doomed_files@) == doomed(*plan, *matchers, strings(set@).take(i as int)),
        decreases set.len() - i,
    {
        let ghost before = strings(doomed_files@);
        proof {
            let upto = strings(set@).take(i + 1);
            assert(upto.drop_last() =~= strings(set@).take(i as int));
            assert(upto.last() == set@[i as int]@);
        }
        if should_delete(plan, matchers, set[i].as_str()) {
            doomed_files.push(set[i].clone());
            assert(strings(doomed_files@) =~= before.push(set@[i as int]@));
        }
        i += 1;
    }
    assert(strings(set@).take(i as int) =~= strings(set@));
    assert(candidate_set_of(strings(found@), strings(set@)));
    doomed_files
}

} // verus!
