//! Glob patterns, compiled and matched by the `globset` crate.
//!
//! What a pattern matches is the business of that crate. The library gives
//! its answers names and states its own rules over them.

use crate::text::strings;
use vstd::prelude::*;

verus! {

/// `globset::Glob`: one parsed pattern.
#[verifier::external_type_specification]
#[verifier::external_body]
pub struct ExGlob(globset::Glob);

/// `globset::GlobSetBuilder`: the patterns of a set in the making.
#[verifier::external_type_specification]
#[verifier::external_body]
pub struct ExGlobSetBuilder(globset::GlobSetBuilder);

/// `globset::GlobSet`: patterns compiled into one matcher.
#[verifier::external_type_specification]
#[verifier::external_body]
pub struct ExGlobSet(globset::GlobSet);

/// `globset::Error`: why a pattern does not parse or a set does not build.
#[verifier::external_type_specification]
#[verifier::external_body]
pub struct ExGlobSetError(globset::Error);

/// Whether `globset::Glob::new` accepts the pattern, on the target that the
/// library is built for: whether a backslash escapes is settled with the
/// target.
pub uninterp spec fn glob_parses(pattern: Seq<char>) -> bool;

/// The pattern that a parsed glob was made from.
pub uninterp spec fn glob_source(glob: globset::Glob) -> Seq<char>;

/// The patterns added to a builder so far, in the order of their coming.
pub uninterp spec fn builder_patterns(builder: globset::GlobSetBuilder) -> Seq<Seq<char>>;

/// The patterns that a set was built from, in their order.
pub uninterp spec fn set_patterns(set: globset::GlobSet) -> Seq<Seq<char>>;

/// Whether `globset::GlobSetBuilder::build` makes a set of these patterns.
pub uninterp spec fn set_builds(patterns: Seq<Seq<char>>) -> bool;

/// Whether a set built from `patterns` matches the path whose bytes are
/// `path`: the answer of `globset::GlobSet::is_match_candidate`.
pub uninterp spec fn set_matches(patterns: Seq<Seq<char>>, path: Seq<u8>) -> bool;

/// Calls `globset::Glob::new`, which parses a pattern with the default
/// options. Whether it parses depends on the pattern alone; a parsed glob
/// keeps the pattern it was made from.
#[verifier::external_body]
fn parse_glob(pattern: &str) -> (parsed: Result<globset::Glob, globset::Error>)
    ensures
        parsed is Ok <==> glob_parses(pattern@),
        parsed is Ok ==> glob_source(parsed->Ok_0) == pattern@,
{
    globset::Glob::new(pattern)
}

/// Calls `globset::GlobSetBuilder::new`: a builder that holds no pattern.
#[verifier::external_body]
fn new_builder() -> (builder: globset::GlobSetBuilder)
    ensures
        builder_patterns(builder) == Seq::<Seq<char>>::empty(),
{
    globset::GlobSetBuilder::new()
}

/// Calls `globset::GlobSetBuilder::add`, which appends the glob to the
/// patterns of the builder.
#[verifier::external_body]
fn add_glob(builder: &mut globset::GlobSetBuilder, glob: globset::Glob)
    ensures
        builder_patterns(*final(builder)) == builder_patterns(*old(builder)).push(glob_source(glob)),
{
    builder.add(glob);
}

/// Calls `globset::GlobSetBuilder::build`, which compiles the patterns added
/// so far into one set. Whether that succeeds depends on the patterns alone;
/// the set stands for the patterns of the builder.
#[verifier::external_body]
fn build_set(builder: &globset::GlobSetBuilder) -> (built: Result<globset::GlobSet, globset::Error>)
    ensures
        built is Ok <==> set_builds(builder_patterns(*builder)),
        built is Ok ==> set_patterns(built->Ok_0) == builder_patterns(*builder),
{
    builder.build()
}

/// Calls `globset::GlobSet::is_match_candidate` on the candidate that
/// `globset::Candidate::from_bytes` makes of the path: whether any glob of
/// the set matches it. For a set of globs that were parsed with the default
/// options, as every set of this library is, the answer depends on the
/// patterns of the set and on the bytes of the path alone.
#[verifier::external_body]
fn glob_set_matches(set: &globset::GlobSet, path: &[u8]) -> (matched: bool)
    ensures
        matched == set_matches(set_patterns(*set), path@),
{
    set.is_match_candidate(&globset::Candidate::from_bytes(path))
}

/// The text with which `globset::Error` reports itself.
#[verifier::external_body]
fn error_text(error: &globset::Error) -> (text: String) {
    error.to_string()
}

/// Why a list of patterns gives no matcher.
#[derive(Debug)]
pub enum GlobError {
    /// The pattern does not parse.
    Pattern { pattern: String, reason: String },
    /// The patterns parse but do not compile into one set.
    Compile { reason: String },
}

impl GlobError {
    /// The text that reports the error.
    pub fn reason(&self) -> (text: &String)
        ensures
            *text == (match *self {
                GlobError::Pattern { pattern, reason } => reason,
                GlobError::Compile { reason } => reason,
            }),
    {
        match self {
            GlobError::Pattern { reason, .. } => reason,
            GlobError::Compile { reason } => reason,
        }
    }
}

/// Every pattern of the list parses.
pub open spec fn all_parse(patterns: Seq<Seq<char>>) -> bool {
    forall|i: int| 0 <= i < patterns.len() ==> glob_parses(#[trigger] patterns[i])
}

/// `at` is the first pattern of the list that does not parse.
pub open spec fn first_unparsed(patterns: Seq<Seq<char>>, at: int) -> bool {
    &&& 0 <= at < patterns.len()
    &&& !glob_parses(patterns[at])
    &&& all_parse(patterns.take(at))
}

/// The list gives a matcher: it is empty, or all its patterns parse and
/// compile into one set.
pub open spec fn usable(patterns: Seq<Seq<char>>) -> bool {
    patterns.len() == 0 || (all_parse(patterns) && set_builds(patterns))
}

/// A list of patterns compiled into one set. Only `build_globset` makes
/// one, so every matcher holds globs that were parsed with the default
/// options.
pub struct GlobMatcher {
    set: globset::GlobSet,
}

impl GlobMatcher {
    /// The patterns that the matcher was built from, in their order.
    pub closed spec fn patterns(&self) -> Seq<Seq<char>> {
        set_patterns(self.set)
    }

    /// Tells whether one of the patterns matches the path.
    pub fn is_match(&self, path: &[u8]) -> (matched: bool)
        ensures
            matched == set_matches(self.patterns(), path@),
    {
        glob_set_matches(&self.set, path)
    }
}

/// The patterns behind a matcher; `None` where there is no matcher.
pub open spec fn source_of(matcher: Option<GlobMatcher>) -> Option<Seq<Seq<char>>> {
    match matcher {
        Some(matcher) => Some(matcher.patterns()),
        None => None,
    }
}

/// What compiling a list of patterns gives: no matcher for the empty list.
pub open spec fn compiled(patterns: Seq<Seq<char>>) -> Option<Seq<Seq<char>>> {
    if patterns.len() == 0 {
        None
    } else {
        Some(patterns)
    }
}

/// Whether a matcher is there and matches the path.
pub open spec fn any_match(source: Option<Seq<Seq<char>>>, path: Seq<u8>) -> bool {
    match source {
        Some(patterns) => set_matches(patterns, path),
        None => false,
    }
}

impl GlobError {
    /// The error says what is wrong with the list: it names the first pattern
    /// that does not parse, or all parse and the set cannot be built.
    pub open spec fn describes(&self, patterns: Seq<Seq<char>>) -> bool {
        match *self {
            GlobError::Pattern { pattern, reason } => exists|at: int|
                first_unparsed(patterns, at) && pattern@ == #[trigger] patterns[at],
            GlobError::Compile { reason } => patterns.len() > 0 && all_parse(patterns)
                && !set_builds(patterns),
        }
    }
}

/// Tells whether a matcher is there and matches the path.
pub fn matches_any(matcher: &Option<GlobMatcher>, path: &[u8]) -> (matched: bool)
    ensures
        matched == any_match(source_of(*matcher), path@),
{
    match matcher {
        Some(matcher) => matcher.is_match(path),
        None => false,
    }
}

/// Compiles a list of patterns. An empty list gives no matcher; otherwise the
/// first pattern that does not parse is reported, or that the set could not
/// be built.
pub fn build_globset(patterns: &Vec<String>) -> (built: Result<Option<GlobMatcher>, GlobError>)
    ensures
        built is Ok <==> usable(strings(patterns@)),
        match built {
            Ok(set) => source_of(set) == compiled(strings(patterns@)),
            Err(error) => error.describes(strings(patterns@)),
        },
{
    if patterns.len() == 0 {
        return Ok(None);
    }
    let mut builder = new_builder();
    let mut i: usize = 0;
    assert(strings(patterns@).take(0) =~= Seq::empty());
    while i < patterns.len()
        invariant
            i <= patterns.len(),
            builder_patterns(builder) == strings(patterns@).take(i as int),
            all_parse(strings(patterns@).take(i as int)),
        decreases patterns.len() - i,
    {
        let pattern = &patterns[i];
        match parse_glob(pattern.as_str()) {
            Ok(glob) => {
                add_glob(&mut builder, glob);
                proof {
                    let upto = strings(patterns@).take(i + 1);
                    assert(upto =~= strings(patterns@).take(i as int).push(pattern@));
                    assert forall|k: int| 0 <= k < upto.len() implies glob_parses(
                        #[trigger] upto[k],
                    ) by {
                        if k < i {
                            assert(upto[k] == strings(patterns@).take(i as int)[k]);
                        }
                    }
                }
            },
            Err(error) => {
                assert(first_unparsed(strings(patterns@), i as int));
                assert(!all_parse(strings(patterns@))) by {
                    assert(!glob_parses(strings(patterns@)[i as int]));
                }
                let error = GlobError::Pattern {
                    pattern: pattern.clone(),
                    reason: error_text(&error),
                };
                assert(error.describes(strings(patterns@))) by {
                    assert(strings(patterns@)[i as int] == pattern@);
                }
                return Err(error);
            },
        }
        i += 1;
    }
    assert(strings(patterns@).take(i as int) =~= strings(patterns@));
    match build_set(&builder) {
        Ok(set) => Ok(Some(GlobMatcher { set })),
        Err(error) => Err(GlobError::Compile { reason: error_text(&error) }),
    }
}

} // verus!
