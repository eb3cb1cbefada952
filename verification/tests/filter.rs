use concat::cli::{Cli, RunArgs};
use concat::config::RunConfig;
use concat::filter::{
    compile_matchers, filter_candidates, filter_with, hidden_reaching_globs, is_explicit,
    is_listed, judge, pattern_implies_hidden, same_string, Candidate, FilterContext, Verdict,
};
use concat::globs::{build_globset, matches_any, GlobError};

fn strings(list: &[&str]) -> Vec<String> {
    list.iter().map(|s| s.to_string()).collect()
}

fn config(run: RunArgs) -> RunConfig {
    RunConfig::from_cli(Cli { command: None, run }, true).unwrap()
}

fn text(path: &str) -> Candidate {
    Candidate { path: path.to_string(), head: Some(b"text\n".to_vec()) }
}

fn no_context() -> FilterContext {
    FilterContext { explicit_file_inputs: Vec::new() }
}

fn verdict(config: &RunConfig, ctx: &FilterContext, output: Option<&str>, c: &Candidate) -> Verdict {
    let matchers = compile_matchers(config).unwrap();
    judge(config, ctx, &matchers, output, c)
}

#[test]
fn only_allowed_extensions_pass() {
    let config = config(RunArgs { exts: strings(&["rs"]), ..RunArgs::default() });
    let candidates = vec![text("/w/src/a.rs"), text("/w/src/b.txt"), text("/w/src/C.RS")];
    let report = filter_candidates(&config, &no_context(), &candidates, None).unwrap();
    assert_eq!(report.matched, strings(&["/w/src/a.rs", "/w/src/C.RS"]));
    assert_eq!(
        report.verdicts,
        vec![Verdict::Matched, Verdict::ExtensionMismatch, Verdict::Matched]
    );
}

#[test]
fn denied_extensions_do_not_pass() {
    let config = config(RunArgs { ignore_exts: strings(&["lock"]), ..RunArgs::default() });
    assert_eq!(verdict(&config, &no_context(), None, &text("/w/a.LOCK")), Verdict::IgnoredExtension);
    assert_eq!(verdict(&config, &no_context(), None, &text("/w/a.rs")), Verdict::Matched);
    assert_eq!(verdict(&config, &no_context(), None, &text("/w/lock")), Verdict::Matched);
}

#[test]
fn the_output_file_never_passes() {
    let config = config(RunArgs { hidden: true, include_binary: true, ..RunArgs::default() });
    let own = text("/w/out.xml");
    assert_eq!(verdict(&config, &no_context(), Some("/w/out.xml"), &own), Verdict::OutputFile);
    assert_eq!(verdict(&config, &no_context(), Some("/w/other.xml"), &own), Verdict::Matched);
    assert_eq!(verdict(&config, &no_context(), None, &own), Verdict::Matched);
    let explicit = FilterContext { explicit_file_inputs: strings(&["/w/out.xml"]) };
    assert_eq!(verdict(&config, &explicit, Some("/w/out.xml"), &own), Verdict::OutputFile);
}

#[test]
fn hidden_files_need_a_reason_to_pass() {
    let plain = config(RunArgs::default());
    let hidden = text("/w/src/.env");
    assert_eq!(verdict(&plain, &no_context(), None, &hidden), Verdict::Hidden);

    let wanted = config(RunArgs { hidden: true, ..RunArgs::default() });
    assert_eq!(verdict(&wanted, &no_context(), None, &hidden), Verdict::Matched);

    let explicit = FilterContext { explicit_file_inputs: strings(&["/w/x", "/w/src/.env"]) };
    assert_eq!(verdict(&plain, &explicit, None, &hidden), Verdict::Matched);

    let reaching = config(RunArgs { include_globs: strings(&["**/.env"]), ..RunArgs::default() });
    assert_eq!(verdict(&reaching, &no_context(), None, &hidden), Verdict::Matched);

    let not_reaching =
        config(RunArgs { include_globs: strings(&["**/*env"]), ..RunArgs::default() });
    assert_eq!(verdict(&not_reaching, &no_context(), None, &hidden), Verdict::Hidden);

    let in_hidden_dir = text("/w/.git/config");
    assert_eq!(verdict(&plain, &no_context(), None, &in_hidden_dir), Verdict::Matched);
}

#[test]
fn inclusion_patterns_must_match_the_path() {
    let config = config(RunArgs { include_globs: strings(&["**/src/**"]), ..RunArgs::default() });
    assert_eq!(verdict(&config, &no_context(), None, &text("/w/src/a.rs")), Verdict::Matched);
    assert_eq!(
        verdict(&config, &no_context(), None, &text("/w/doc/a.rs")),
        Verdict::IncludeMismatch
    );
}

#[test]
fn exclusion_patterns_match_the_path_or_the_name() {
    let by_name = config(RunArgs { exclude_globs: strings(&["skip.rs"]), ..RunArgs::default() });
    assert_eq!(by_name.exclude_globs, strings(&["**/skip.rs"]));
    assert_eq!(
        verdict(&by_name, &no_context(), None, &text("/w/a/b/c/skip.rs")),
        Verdict::ExcludeMatch
    );
    assert_eq!(verdict(&by_name, &no_context(), None, &text("/w/a/keep.rs")), Verdict::Matched);

    let by_wildcard = config(RunArgs { exclude_globs: strings(&["*.lock"]), ..RunArgs::default() });
    assert_eq!(
        verdict(&by_wildcard, &no_context(), None, &text("/w/deep/Cargo.lock")),
        Verdict::ExcludeMatch
    );

    let bare = config(RunArgs { exclude_globs: strings(&["s?ip.rs"]), ..RunArgs::default() });
    assert_eq!(
        verdict(&bare, &no_context(), None, &text("/w/a/skip.rs")),
        Verdict::ExcludeMatch
    );
}

#[test]
fn what_is_not_text_does_not_pass() {
    let plain = config(RunArgs::default());
    let binary = Candidate { path: "/w/a.bin".to_string(), head: Some(b"\0\0\0binary".to_vec()) };
    let empty = Candidate { path: "/w/empty".to_string(), head: Some(Vec::new()) };
    let unread = Candidate { path: "/w/gone".to_string(), head: None };
    assert_eq!(verdict(&plain, &no_context(), None, &binary), Verdict::NotText);
    assert_eq!(verdict(&plain, &no_context(), None, &empty), Verdict::NotText);
    assert_eq!(verdict(&plain, &no_context(), None, &unread), Verdict::NotText);

    let wanted = config(RunArgs { include_binary: true, ..RunArgs::default() });
    assert_eq!(verdict(&wanted, &no_context(), None, &binary), Verdict::Matched);
    assert_eq!(verdict(&wanted, &no_context(), None, &empty), Verdict::Matched);
    assert_eq!(verdict(&wanted, &no_context(), None, &unread), Verdict::Matched);
}

#[test]
fn the_first_gate_that_turns_a_file_away_decides() {
    let config = config(RunArgs {
        exts: strings(&["rs"]),
        ignore_exts: strings(&["txt"]),
        include_globs: strings(&["**/src/**"]),
        exclude_globs: strings(&["*.txt"]),
        ..RunArgs::default()
    });
    let hidden = Candidate { path: "/w/doc/.a.txt".to_string(), head: None };
    assert_eq!(verdict(&config, &no_context(), Some("/w/doc/.a.txt"), &hidden), Verdict::OutputFile);
    assert_eq!(verdict(&config, &no_context(), None, &hidden), Verdict::Hidden);
    let shown = Candidate { path: "/w/doc/a.txt".to_string(), head: None };
    assert_eq!(verdict(&config, &no_context(), None, &shown), Verdict::ExtensionMismatch);
    let rs = Candidate { path: "/w/doc/a.rs".to_string(), head: None };
    assert_eq!(verdict(&config, &no_context(), None, &rs), Verdict::IncludeMismatch);
}

#[test]
fn filtering_twice_changes_nothing() {
    let config = config(RunArgs {
        exts: strings(&["rs", "txt"]),
        exclude_globs: strings(&["skip.rs"]),
        ..RunArgs::default()
    });
    let candidates = vec![
        text("/w/a.rs"),
        text("/w/skip.rs"),
        text("/w/b.md"),
        text("/w/.c.rs"),
        text("/w/d.txt"),
    ];
    let once = filter_candidates(&config, &no_context(), &candidates, Some("/w/d.txt")).unwrap();
    let again = filter_candidates(&config, &no_context(), &candidates, Some("/w/d.txt")).unwrap();
    assert_eq!(once.matched, again.matched);
    assert_eq!(once.verdicts, again.verdicts);
    assert_eq!(once.matched, strings(&["/w/a.rs"]));

    let survivors: Vec<Candidate> = once.matched.iter().map(|p| text(p)).collect();
    let twice = filter_candidates(&config, &no_context(), &survivors, Some("/w/d.txt")).unwrap();
    assert_eq!(twice.matched, once.matched);
}

#[test]
fn a_pattern_that_does_not_parse_is_an_error() {
    let bad_include = config(RunArgs { include_globs: strings(&["*.rs", "a[b"]), ..RunArgs::default() });
    match filter_candidates(&bad_include, &no_context(), &vec![text("/w/a.rs")], None) {
        Err(GlobError::Pattern { pattern, reason }) => {
            assert_eq!(pattern, "a[b");
            assert!(!reason.is_empty());
        },
        _ => panic!("the pattern should not parse"),
    }
    let mut bad_exclude = config(RunArgs::default());
    bad_exclude.exclude_globs = strings(&["{a,b"]);
    let error = compile_matchers(&bad_exclude).err().expect("the pattern should not parse");
    assert!(matches!(&error, GlobError::Pattern { pattern, .. } if pattern == "{a,b"));
    assert!(!error.reason().is_empty());
}

#[test]
fn patterns_that_do_not_compile_into_one_set_are_an_error() {
    let patterns: Vec<String> =
        (0..40000).map(|i| format!("*a{i}*b{i}*c*d*e*f*g*h*i*j*k*l*m*n*o*p*")).collect();
    match build_globset(&patterns) {
        Err(GlobError::Compile { reason }) => assert!(!reason.is_empty()),
        _ => panic!("the set should be too large to build"),
    }
}

#[test]
fn compiled_patterns_match_paths_given_as_bytes() {
    assert!(build_globset(&Vec::new()).unwrap().is_none());
    let set = build_globset(&strings(&["*.rs", "src/**/lib.c"])).unwrap();
    assert!(set.is_some());
    assert!(matches_any(&set, b"main.rs"));
    assert!(matches_any(&set, b"a/b/main.rs"));
    assert!(matches_any(&set, b"src/x/y/lib.c"));
    assert!(!matches_any(&set, b"main.c"));
    assert!(!matches_any(&None, b"main.rs"));
}

#[test]
fn patterns_that_reach_into_hidden_places() {
    assert!(pattern_implies_hidden(".env"));
    assert!(pattern_implies_hidden("**/.env"));
    assert!(pattern_implies_hidden("a\\.b"));
    assert!(pattern_implies_hidden("src/.config/**"));
    assert!(!pattern_implies_hidden("src/a.b"));
    assert!(!pattern_implies_hidden("a."));
    assert!(!pattern_implies_hidden("/"));
    assert!(!pattern_implies_hidden(""));
    assert_eq!(
        hidden_reaching_globs(&strings(&["*.rs", "**/.env", ".x", "a/b"])),
        strings(&["**/.env", ".x"])
    );
}

#[test]
fn small_searches() {
    assert!(same_string("abc", "abc"));
    assert!(!same_string("abc", "abd"));
    assert!(is_listed(&strings(&["rs", "txt"]), b"txt"));
    assert!(!is_listed(&strings(&["rs", "txt"]), b"tx"));
    assert!(!is_listed(&Vec::new(), b""));
    let ctx = FilterContext { explicit_file_inputs: strings(&["/a", "/b"]) };
    assert!(is_explicit(&ctx, "/b"));
    assert!(!is_explicit(&ctx, "/c"));
}

#[test]
fn verdicts_say_why() {
    assert_eq!(Verdict::Matched.reason(), "matched");
    assert_eq!(Verdict::OutputFile.reason(), "is the output file");
    assert_eq!(Verdict::Hidden.reason(), "hidden and not explicitly included");
    assert_eq!(Verdict::ExtensionMismatch.reason(), "extension mismatch");
    assert_eq!(Verdict::IgnoredExtension.reason(), "ignored extension");
    assert_eq!(Verdict::IncludeMismatch.reason(), "include glob mismatch");
    assert_eq!(Verdict::ExcludeMatch.reason(), "exclude glob match");
    assert_eq!(Verdict::NotText.reason(), "not text");
}

#[test]
fn filtering_with_compiled_patterns() {
    let config = config(RunArgs { include_globs: strings(&["**/*.rs"]), ..RunArgs::default() });
    let matchers = compile_matchers(&config).unwrap();
    let candidates = vec![text("/w/a.rs"), text("/w/a.md")];
    let report = filter_with(&config, &no_context(), &matchers, &candidates, None);
    assert_eq!(report.matched, strings(&["/w/a.rs"]));
    assert_eq!(report.verdicts, vec![Verdict::Matched, Verdict::IncludeMismatch]);
}
