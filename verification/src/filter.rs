//! The admission policy: which candidates make it into the document.
//!
//! Each candidate passes seven gates in a fixed order, and the first gate
//! that turns it away decides the verdict. The gates are: self-exclusion,
//! hidden files, the two extension lists, the two glob lists, the text gate.

use crate::config::RunConfig;
use crate::globs::{
    any_match, build_globset, compiled, matches_any, source_of, usable, GlobError, GlobMatcher,
};
use crate::paths::{
    base_name, bytes_equal, ext_lower, file_name, hidden_path, is_hidden_name, path_ext_lower,
};
use crate::strings::chars_of;
use crate::text::{lemma_utf8_injective, strings, utf8, view_of};
use crate::text_detect::{is_probably_text, is_text, sample_of};
use vstd::prelude::*;

verus! {

/// What the filter knows besides the configuration.
pub struct FilterContext {
    /// The files that were named as inputs, rather than found in a directory.
    pub explicit_file_inputs: Vec<String>,
}

/// A file that stands for admission.
pub struct Candidate {
    /// Its resolved path.
    pub path: String,
    /// Its leading bytes, or `None` where it could not be read.
    pub head: Option<Vec<u8>>,
}

/// The outcome of the gates for one candidate.
#[derive(Clone, Copy, Debug, PartialEq, Eq, Structural)]
pub enum Verdict {
    /// It passed every gate.
    Matched,
    /// It is the file that the document is written to.
    OutputFile,
    /// It is hidden, and nothing lets it in.
    Hidden,
    /// Its extension is not among the allowed ones.
    ExtensionMismatch,
    /// Its extension is among the denied ones.
    IgnoredExtension,
    /// None of the inclusion patterns matches it.
    IncludeMismatch,
    /// An exclusion pattern matches it or its name.
    ExcludeMatch,
    /// It does not read as text.
    NotText,
}

/// What the filter found.
pub struct FilterReport {
    /// The paths that passed, in the order of the candidates.
    pub matched: Vec<String>,
    /// The verdict on each candidate, in the order of the candidates.
    pub verdicts: Vec<Verdict>,
}

/// The compiled patterns of a run.
pub struct Matchers {
    /// All inclusion patterns.
    pub includes: Option<GlobMatcher>,
    /// The inclusion patterns that reach into hidden places.
    pub reach_hidden: Option<GlobMatcher>,
    /// The exclusion patterns.
    pub excludes: Option<GlobMatcher>,
}

/// The pattern lists behind three matchers; `None` where a list is empty and
/// so gives no matcher.
pub struct GlobRules {
    pub includes: Option<Seq<Seq<char>>>,
    pub reach_hidden: Option<Seq<Seq<char>>>,
    pub excludes: Option<Seq<Seq<char>>>,
}

/// A pattern reaches into hidden places: it starts with a dot, or a dot
/// follows one of its separators.
pub open spec fn implies_hidden(pattern: Seq<char>) -> bool {
    ||| pattern.len() > 0 && pattern[0] == '.'
    ||| exists|i: int|
        0 <= i && i + 1 < pattern.len() && (#[trigger] pattern[i] == '/' || pattern[i] == '\\')
            && pattern[i + 1] == '.'
}

/// The patterns of a list that reach into hidden places, in their order.
pub open spec fn reaching_hidden(patterns: Seq<Seq<char>>) -> Seq<Seq<char>>
    decreases patterns.len(),
{
    if patterns.len() == 0 {
        Seq::empty()
    } else if implies_hidden(patterns.last()) {
        reaching_hidden(patterns.drop_last()).push(patterns.last())
    } else {
        reaching_hidden(patterns.drop_last())
    }
}

/// The pattern lists that a configuration compiles.
pub open spec fn rules_of(config: RunConfig) -> GlobRules {
    GlobRules {
        includes: compiled(strings(config.include_globs@)),
        reach_hidden: compiled(reaching_hidden(strings(config.include_globs@))),
        excludes: compiled(strings(config.exclude_globs@)),
    }
}

/// The error names the first of the three pattern lists of a configuration
/// that gives no matcher, and says what is wrong with it.
pub open spec fn reports(error: GlobError, config: RunConfig) -> bool {
    let includes = strings(config.include_globs@);
    let reach = reaching_hidden(includes);
    let excludes = strings(config.exclude_globs@);
    ||| !usable(includes) && error.describes(includes)
    ||| usable(includes) && !usable(reach) && error.describes(reach)
    ||| usable(includes) && usable(reach) && !usable(excludes) && error.describes(excludes)
}

/// All three pattern lists of a configuration give a matcher.
pub open spec fn globs_usable(config: RunConfig) -> bool {
    &&& usable(strings(config.include_globs@))
    &&& usable(reaching_hidden(strings(config.include_globs@)))
    &&& usable(strings(config.exclude_globs@))
}

impl Matchers {
    /// The pattern lists behind the matchers.
    pub open spec fn rules(&self) -> GlobRules {
        GlobRules {
            includes: source_of(self.includes),
            reach_hidden: source_of(self.reach_hidden),
            excludes: source_of(self.excludes),
        }
    }
}

/// An extension list holds the extension.
pub open spec fn listed(list: Seq<String>, ext: Seq<u8>) -> bool {
    exists|i: int| 0 <= i < list.len() && utf8(#[trigger] list[i]@) == ext
}

/// The path was named as an input.
pub open spec fn named_explicitly(ctx: FilterContext, path: Seq<char>) -> bool {
    exists|i: int|
        0 <= i < ctx.explicit_file_inputs@.len() && (#[trigger] ctx.explicit_file_inputs@[i])@
            == path
}

/// The hidden-file gate: a hidden file is turned away unless hidden files
/// are wanted, the file was named as an input, or an inclusion pattern that
/// reaches into hidden places matches it.
pub open spec fn hidden_gate_rejects(
    hidden: bool,
    keep_hidden: bool,
    explicit: bool,
    glob_reaches: bool,
) -> bool {
    hidden && !keep_hidden && !explicit && !glob_reaches
}

/// The text gate: the leading bytes were read and read as text.
pub open spec fn head_is_text(head: Option<Vec<u8>>) -> bool {
    match head {
        Some(bytes) => is_text(sample_of(bytes@)),
        None => false,
    }
}

/// The verdict on one candidate: the first gate that turns it away.
pub open spec fn verdict_of(
    config: RunConfig,
    ctx: FilterContext,
    rules: GlobRules,
    output: Option<Seq<char>>,
    candidate: Candidate,
) -> Verdict {
    let path = utf8(candidate.path@);
    if output == Some(candidate.path@) {
        Verdict::OutputFile
    } else if hidden_gate_rejects(
        hidden_path(path),
        config.include_hidden,
        named_explicitly(ctx, candidate.path@),
        any_match(rules.reach_hidden, path),
    ) {
        Verdict::Hidden
    } else if config.exts@.len() > 0 && !listed(config.exts@, ext_lower(path)) {
        Verdict::ExtensionMismatch
    } else if listed(config.ignore_exts@, ext_lower(path)) {
        Verdict::IgnoredExtension
    } else if rules.includes is Some && !any_match(rules.includes, path) {
        Verdict::IncludeMismatch
    } else if any_match(rules.excludes, path) || any_match(rules.excludes, base_name(path)) {
        Verdict::ExcludeMatch
    } else if !config.include_binary && !head_is_text(candidate.head) {
        Verdict::NotText
    } else {
        Verdict::Matched
    }
}

/// The verdicts on a list of candidates, one for each.
pub open spec fn verdicts_of(
    config: RunConfig,
    ctx: FilterContext,
    rules: GlobRules,
    output: Option<Seq<char>>,
    candidates: Seq<Candidate>,
) -> Seq<Verdict> {
    Seq::new(candidates.len(), |i: int| verdict_of(config, ctx, rules, output, candidates[i]))
}

/// The candidates that pass every gate, in their order.
pub open spec fn admitted(
    config: RunConfig,
    ctx: FilterContext,
    rules: GlobRules,
    output: Option<Seq<char>>,
    candidates: Seq<Candidate>,
) -> Seq<Candidate>
    decreases candidates.len(),
{
    if candidates.len() == 0 {
        Seq::empty()
    } else if verdict_of(config, ctx, rules, output, candidates.last()) == Verdict::Matched {
        admitted(config, ctx, rules, output, candidates.drop_last()).push(candidates.last())
    } else {
        admitted(config, ctx, rules, output, candidates.drop_last())
    }
}

/// The paths of a list of candidates.
pub open spec fn paths_of(candidates: Seq<Candidate>) -> Seq<Seq<char>> {
    candidates.map_values(|c: Candidate| c.path@)
}

impl Verdict {
    /// A few words that say why a candidate was turned away.
    pub fn reason(&self) -> (text: &'static str)
        ensures
            text@ == (match *self {
                Verdict::Matched => "matched"@,
                Verdict::OutputFile => "is the output file"@,
                Verdict::Hidden => "hidden and not explicitly included"@,
                Verdict::ExtensionMismatch => "extension mismatch"@,
                Verdict::IgnoredExtension => "ignored extension"@,
                Verdict::IncludeMismatch => "include glob mismatch"@,
                Verdict::ExcludeMatch => "exclude glob match"@,
                Verdict::NotText => "not text"@,
            }),
    {
        match self {
            Verdict::Matched => "matched",
            Verdict::OutputFile => "is the output file",
            Verdict::Hidden => "hidden and not explicitly included",
            Verdict::ExtensionMismatch => "extension mismatch",
            Verdict::IgnoredExtension => "ignored extension",
            Verdict::IncludeMismatch => "include glob mismatch",
            Verdict::ExcludeMatch => "exclude glob match",
            Verdict::NotText => "not text",
        }
    }
}

/// Tells whether a pattern reaches into hidden places.
pub fn pattern_implies_hidden(pattern: &str) -> (reaches: bool)
    ensures
        reaches == implies_hidden(pattern@),
{
    let chars = chars_of(pattern);
    if chars.len() > 0 && chars[0] == '.' {
        return true;
    }
    if chars.len() < 2 {
        return false;
    }
    let last: usize = chars.len() - 1;
    let mut i: usize = 0;
    while i < last
        invariant
            i <= last,
            last + 1 == chars.len(),
            chars@ == pattern@,
            forall|k: int|
                0 <= k < i && k + 1 < chars@.len() ==> !((#[trigger] chars@[k] == '/' || chars@[k]
                    == '\\') && chars@[k + 1] == '.'),
        decreases last - i,
    {
        if (chars[i] == '/' || chars[i] == '\\') && chars[i + 1] == '.' {
            return true;
        }
        i += 1;
    }
    false
}

/// Tells whether two strings are the same.
pub fn same_string(a: &str, b: &str) -> (same: bool)
    ensures
        same == (a@ == b@),
{
    let same = bytes_equal(a.as_bytes(), b.as_bytes());
    proof {
        if same {
            lemma_utf8_injective(a@, b@);
        }
    }
    same
}

/// Tells whether an extension list holds the extension.
pub fn is_listed(list: &Vec<String>, ext: &[u8]) -> (found: bool)
    ensures
        found == listed(list@, ext@),
{
    let mut i: usize = 0;
    while i < list.len()
        invariant
            i <= list.len(),
            forall|k: int| 0 <= k < i ==> utf8(#[trigger] list@[k]@) != ext@,
        decreases list.len() - i,
    {
        if bytes_equal(list[i].as_str().as_bytes(), ext) {
            return true;
        }
        i += 1;
    }
    false
}

/// Tells whether the path was named as an input.
pub fn is_explicit(ctx: &FilterContext, path: &str) -> (found: bool)
    ensures
        found == named_explicitly(*ctx, path@),
{
    let mut i: usize = 0;
    while i < ctx.explicit_file_inputs.len()
        invariant
            i <= ctx.explicit_file_inputs@.len(),
            forall|k: int| 0 <= k < i ==> (#[trigger] ctx.explicit_file_inputs@[k])@ != path@,
        decreases ctx.explicit_file_inputs@.len() - i,
    {
        if same_string(ctx.explicit_file_inputs[i].as_str(), path) {
            return true;
        }
        i += 1;
    }
    false
}

/// Passes one candidate through the gates.
pub fn judge(
    config: &RunConfig,
    ctx: &FilterContext,
    matchers: &Matchers,
    output_path: Option<&str>,
    candidate: &Candidate,
) -> (verdict: Verdict)
    ensures
        verdict == verdict_of(*config, *ctx, matchers.rules(), view_of(output_path), *candidate),
{
    let path = candidate.path.as_str();
    let bytes = path.as_bytes();
    if let Some(output) = output_path {
        if same_string(path, output) {
            return Verdict::OutputFile;
        }
    }
    let name = file_name(bytes);
    if is_hidden_name(name) && !config.include_hidden {
        if !is_explicit(ctx, path) && !matches_any(&matchers.reach_hidden, bytes) {
            return Verdict::Hidden;
        }
    }
    let ext = path_ext_lower(path);
    if config.exts.len() > 0 && !is_listed(&config.exts, ext.as_slice()) {
        return Verdict::ExtensionMismatch;
    }
    if is_listed(&config.ignore_exts, ext.as_slice()) {
        return Verdict::IgnoredExtension;
    }
    if matchers.includes.is_some() && !matches_any(&matchers.includes, bytes) {
        return Verdict::IncludeMismatch;
    }
    if matches_any(&matchers.excludes, bytes) || matches_any(&matchers.excludes, name) {
        return Verdict::ExcludeMatch;
    }
    if !config.include_binary {
        let text = match &candidate.head {
            Some(head) => is_probably_text(head.as_slice()),
            None => false,
        };
        if !text {
            return Verdict::NotText;
        }
    }
    Verdict::Matched
}

/// Passes the candidates through the gates of a run whose patterns are
/// already compiled. The report holds the verdict on each candidate and the
/// paths of those that passed, in the order of the candidates.
pub fn filter_with(
    config: &RunConfig,
    ctx: &FilterContext,
    matchers: &Matchers,
    candidates: &Vec<Candidate>,
    output_path: Option<&str>,
) -> (report: FilterReport)
    ensures
        report.verdicts@ == verdicts_of(
            *config,
            *ctx,
            matchers.rules(),
            view_of(output_path),
            candidates@,
        ),
        strings(report.matched@) == paths_of(
            admitted(*config, *ctx, matchers.rules(), view_of(output_path), candidates@),
        ),
{
    let ghost rules = matchers.rules();
    let ghost output = view_of(output_path);
    let mut matched: Vec<String> = Vec::new();
    let mut verdicts: Vec<Verdict> = Vec::new();
    let mut i: usize = 0;
    assert(candidates@.take(0) =~= Seq::empty());
    assert(strings(matched@) =~= paths_of(Seq::empty()));
    while i < candidates.len()
        invariant
            i <= candidates.len(),
            rules == matchers.rules(),
            output == view_of(output_path),
            verdicts@.len() == i,
            forall|k: int|
                0 <= k < i ==> verdicts@[k] == verdict_of(
                    *config,
                    *ctx,
                    rules,
                    output,
                    #[trigger] candidates@[k],
                ),
            strings(matched@) == paths_of(
                admitted(*config, *ctx, rules, output, candidates@.take(i as int)),
            ),
        decreases candidates.len() - i,
    {
        let candidate = &candidates[i];
        let verdict = judge(config, ctx, matchers, output_path, candidate);
        let ghost before = matched@;
        proof {
            let upto = candidates@.take(i + 1);
            assert(upto.drop_last() =~= candidates@.take(i as int));
            assert(upto.last() == *candidate);
        }
        if verdict == Verdict::Matched {
            matched.push(candidate.path.clone());
            proof {
                let earlier = admitted(*config, *ctx, rules, output, candidates@.take(i as int));
                assert(strings(matched@) =~= strings(before).push(candidate.path@));
                assert(paths_of(earlier.push(*candidate)) =~= paths_of(earlier).push(
                    candidate.path@,
                ));
            }
        }
        verdicts.push(verdict);
        i += 1;
    }
    assert(candidates@.take(i as int) =~= candidates@);
    assert(verdicts@ =~= verdicts_of(*config, *ctx, rules, output, candidates@));
    FilterReport { matched, verdicts }
}

/// The inclusion patterns that reach into hidden places.
pub fn hidden_reaching_globs(patterns: &Vec<String>) -> (reaching: Vec<String>)
    ensures
        strings(reaching@) == reaching_hidden(strings(patterns@)),
{
    let mut reaching: Vec<String> = Vec::new();
    let mut i: usize = 0;
    assert(strings(patterns@).take(0) =~= Seq::empty());
    assert(strings(reaching@) =~= Seq::empty());
    while i < patterns.len()
        invariant
            i <= patterns.len(),
            strings(reaching@) == reaching_hidden(strings(patterns@).take(i as int)),
        decreases patterns.len() - i,
    {
        let ghost before = strings(reaching@);
        proof {
            let upto = strings(patterns@).take(i + 1);
            assert(upto.drop_last() =~= strings(patterns@).take(i as int));
            assert(upto.last() == patterns@[i as int]@);
        }
        if pattern_implies_hidden(patterns[i].as_str()) {
            reaching.push(patterns[i].clone());
            assert(strings(reaching@) =~= before.push(patterns@[i as int]@));
        }
        i += 1;
    }
    assert(strings(patterns@).take(i as int) =~= strings(patterns@));
    reaching
}

/// Compiles the patterns of a configuration: the inclusion patterns, those
/// among them that reach into hidden places, and the exclusion patterns, in
/// this order. The first list that gives no matcher is reported.
pub fn compile_matchers(config: &RunConfig) -> (compiled: Result<Matchers, GlobError>)
    ensures
        compiled is Ok <==> globs_usable(*config),
        match compiled {
            Ok(matchers) => matchers.rules() == rules_of(*config),
            Err(error) => reports(error, *config),
        },
{
    let includes = match build_globset(&config.include_globs) {
        Ok(set) => set,
        Err(error) => {
            return Err(error);
        },
    };
    let reaching = hidden_reaching_globs(&config.include_globs);
    let reach_hidden = match build_globset(&reaching) {
        Ok(set) => set,
        Err(error) => {
            return Err(error);
        },
    };
    let excludes = match build_globset(&config.exclude_globs) {
        Ok(set) => set,
        Err(error) => {
            return Err(error);
        },
    };
    Ok(Matchers { includes, reach_hidden, excludes })
}

/// Filters the candidates of a run. The patterns of the configuration are
/// compiled first, and a list that gives no matcher is an error; a run
/// without patterns always succeeds. The report then holds the verdict on
/// each candidate and the paths of those that passed every gate, in the
/// order of the candidates.
pub fn filter_candidates(
    config: &RunConfig,
    ctx: &FilterContext,
    candidates: &Vec<Candidate>,
    output_path: Option<&str>,
) -> (filtered: Result<FilterReport, GlobError>)
    ensures
        filtered is Ok <==> globs_usable(*config),
        filtered matches Err(error) ==> reports(error, *config),
        filtered matches Ok(report) ==> {
            &&& report.verdicts@ == verdicts_of(
                *config,
                *ctx,
                rules_of(*config),
                view_of(output_path),
                candidates@,
            )
            &&& strings(report.matched@) == paths_of(
                admitted(*config, *ctx, rules_of(*config), view_of(output_path), candidates@),
            )
            &&& forall|i: int|
                0 <= i < report.matched@.len() ==> Some((#[trigger] report.matched@[i])@)
                    != view_of(output_path)
        },
{
    let matchers = match compile_matchers(config) {
        Ok(matchers) => matchers,
        Err(error) => {
            return Err(error);
        },
    };
    let report = filter_with(config, ctx, &matchers, candidates, output_path);
    proof {
        let kept = admitted(*config, *ctx, rules_of(*config), view_of(output_path), candidates@);
        lemma_admitted_never_output(
            *config,
            *ctx,
            rules_of(*config),
            view_of(output_path),
            candidates@,
        );
        assert forall|i: int| 0 <= i < report.matched@.len() implies Some(
            (#[trigger] report.matched@[i])@,
        ) != view_of(output_path) by {
            assert(strings(report.matched@).len() == paths_of(kept).len());
            assert(strings(report.matched@)[i] == report.matched@[i]@);
            assert(strings(report.matched@)[i] == paths_of(kept)[i]);
        }
    }
    Ok(report)
}

/// Every admitted candidate is one of the candidates and has the verdict
/// `Matched`; the admitted ones are no more than the candidates.
pub proof fn lemma_admitted_are_matched(
    config: RunConfig,
    ctx: FilterContext,
    rules: GlobRules,
    output: Option<Seq<char>>,
    candidates: Seq<Candidate>,
)
    ensures
        admitted(config, ctx, rules, output, candidates).len() <= candidates.len(),
        forall|i: int|
            0 <= i < admitted(config, ctx, rules, output, candidates).len() ==> {
                let kept = #[trigger] admitted(config, ctx, rules, output, candidates)[i];
                candidates.contains(kept) && verdict_of(config, ctx, rules, output, kept)
                    == Verdict::Matched
            },
    decreases candidates.len(),
{
    if candidates.len() > 0 {
        let shorter = candidates.drop_last();
        lemma_admitted_are_matched(config, ctx, rules, output, shorter);
        let kept_all = admitted(config, ctx, rules, output, candidates);
        let kept_shorter = admitted(config, ctx, rules, output, shorter);
        assert forall|i: int| 0 <= i < kept_all.len() implies ({
            let kept = #[trigger] kept_all[i];
            candidates.contains(kept) && verdict_of(config, ctx, rules, output, kept)
                == Verdict::Matched
        }) by {
            if i < kept_shorter.len() {
                let kept = kept_shorter[i];
                assert(shorter.contains(kept));
                let at = choose|at: int| 0 <= at < shorter.len() && shorter[at] == kept;
                assert(candidates[at] == kept);
            } else {
                assert(kept_all[i] == candidates[candidates.len() - 1]);
            }
        }
    }
}

/// `kept` holds elements of `all` in their order: `at` tells where each of
/// them stands in `all`.
pub open spec fn picks_in_order(kept: Seq<Candidate>, all: Seq<Candidate>, at: Seq<int>) -> bool {
    &&& at.len() == kept.len()
    &&& forall|i: int| 0 <= i < at.len() ==> 0 <= #[trigger] at[i] < all.len() && kept[i] == all[at[i]]
    &&& forall|i: int, j: int| 0 <= i < j < at.len() ==> at[i] < at[j]
}

/// The admitted candidates stand in the order of the candidates.
pub proof fn lemma_admitted_in_order(
    config: RunConfig,
    ctx: FilterContext,
    rules: GlobRules,
    output: Option<Seq<char>>,
    candidates: Seq<Candidate>,
) -> (at: Seq<int>)
    ensures
        picks_in_order(admitted(config, ctx, rules, output, candidates), candidates, at),
    decreases candidates.len(),
{
    if candidates.len() == 0 {
        Seq::empty()
    } else {
        let shorter = candidates.drop_last();
        let earlier = lemma_admitted_in_order(config, ctx, rules, output, shorter);
        let kept = admitted(config, ctx, rules, output, shorter);
        assert forall|i: int| 0 <= i < earlier.len() implies kept[i] == candidates[earlier[i]] by {
            assert(shorter[earlier[i]] == candidates[earlier[i]]);
        }
        if verdict_of(config, ctx, rules, output, candidates.last()) == Verdict::Matched {
            earlier.push(candidates.len() - 1)
        } else {
            earlier
        }
    }
}

/// No path stands twice among the admitted if none stands twice among the
/// candidates.
pub proof fn lemma_admitted_distinct(
    config: RunConfig,
    ctx: FilterContext,
    rules: GlobRules,
    output: Option<Seq<char>>,
    candidates: Seq<Candidate>,
)
    requires
        forall|i: int, j: int|
            0 <= i < j < candidates.len() ==> candidates[i].path@ != candidates[j].path@,
    ensures
        forall|i: int, j: int|
            0 <= i < j < admitted(config, ctx, rules, output, candidates).len() ==> admitted(
                config,
                ctx,
                rules,
                output,
                candidates,
            )[i].path@ != admitted(config, ctx, rules, output, candidates)[j].path@,
{
    let at = lemma_admitted_in_order(config, ctx, rules, output, candidates);
    let kept = admitted(config, ctx, rules, output, candidates);
    assert forall|i: int, j: int| 0 <= i < j < kept.len() implies kept[i].path@
        != kept[j].path@ by {
        assert(kept[i] == candidates[at[i]] && kept[j] == candidates[at[j]]);
        assert(at[i] < at[j]);
    }
}

/// Self-exclusion: the file that the document is written to is never among
/// the admitted, whatever else holds of it.
pub proof fn lemma_admitted_never_output(
    config: RunConfig,
    ctx: FilterContext,
    rules: GlobRules,
    output: Option<Seq<char>>,
    candidates: Seq<Candidate>,
)
    ensures
        forall|i: int|
            0 <= i < admitted(config, ctx, rules, output, candidates).len() ==> Some(
                #[trigger] paths_of(admitted(config, ctx, rules, output, candidates))[i],
            ) != output,
{
    lemma_admitted_are_matched(config, ctx, rules, output, candidates);
    let kept = admitted(config, ctx, rules, output, candidates);
    assert forall|i: int| 0 <= i < kept.len() implies Some(#[trigger] paths_of(kept)[i])
        != output by {
        assert(verdict_of(config, ctx, rules, output, kept[i]) == Verdict::Matched);
    }
}

/// The filter keeps no state and settles in one pass: the admitted
/// candidates depend on the arguments alone, and filtering them once more
/// under the same policy changes nothing.
pub proof fn lemma_filter_idempotent(
    config: RunConfig,
    ctx: FilterContext,
    rules: GlobRules,
    output: Option<Seq<char>>,
    candidates: Seq<Candidate>,
)
    ensures
        admitted(config, ctx, rules, output, admitted(config, ctx, rules, output, candidates))
            == admitted(config, ctx, rules, output, candidates),
    decreases candidates.len(),
{
    if candidates.len() > 0 {
        let shorter = candidates.drop_last();
        lemma_filter_idempotent(config, ctx, rules, output, shorter);
        let kept = admitted(config, ctx, rules, output, shorter);
        if verdict_of(config, ctx, rules, output, candidates.last()) == Verdict::Matched {
            let longer = kept.push(candidates.last());
            assert(longer.drop_last() =~= kept);
            assert(longer.last() == candidates.last());
        }
    }
}

/// Hidden-file bypass: a file that was named as an input is never turned
/// away for being hidden, even where hidden files are left out and no
/// pattern reaches it. It is admitted as soon as the other gates let it
/// pass.
pub proof fn lemma_explicit_input_bypasses_hidden_gate(
    config: RunConfig,
    ctx: FilterContext,
    rules: GlobRules,
    output: Option<Seq<char>>,
    candidate: Candidate,
)
    requires
        named_explicitly(ctx, candidate.path@),
    ensures
        verdict_of(config, ctx, rules, output, candidate) != Verdict::Hidden,
        !hidden_gate_rejects(
            hidden_path(utf8(candidate.path@)),
            config.include_hidden,
            true,
            any_match(rules.reach_hidden, utf8(candidate.path@)),
        ),
        ({
            let path = utf8(candidate.path@);
            &&& output != Some(candidate.path@)
            &&& config.exts@.len() > 0 ==> listed(config.exts@, ext_lower(path))
            &&& !listed(config.ignore_exts@, ext_lower(path))
            &&& rules.includes is Some ==> any_match(rules.includes, path)
            &&& !any_match(rules.excludes, path)
            &&& !any_match(rules.excludes, base_name(path))
            &&& config.include_binary || head_is_text(candidate.head)
        }) ==> verdict_of(config, ctx, rules, output, candidate) == Verdict::Matched,
{
}

} // verus!
