use concat::cli::{Cli, MetadataSort, RunArgs};
use concat::config::{
    normalize_exclude_glob, normalize_exclude_globs, normalize_ext, normalize_exts, ConfigError,
    OutputFormat, RunConfig,
};
use concat::inputs::has_glob_metacharacters;
use concat::strings::{chars_of, contains_char, skip_leading, string_of, to_lower_char, trim_chars};

fn strings(list: &[&str]) -> Vec<String> {
    list.iter().map(|s| s.to_string()).collect()
}

#[test]
fn the_two_recursion_flags_contradict_each_other() {
    let cli = Cli {
        command: None,
        run: RunArgs { recursive: true, no_recursive: true, ..RunArgs::default() },
    };
    let error = RunConfig::from_cli(cli, true).unwrap_err();
    assert_eq!(error, ConfigError::RecursiveConflict);
    assert_eq!(error.message(), "Cannot pass both --recursive and --no-recursive.");
}

#[test]
fn options_resolve_to_their_defaults() {
    let config = RunConfig::from_cli(Cli { command: None, run: RunArgs::default() }, false).unwrap();
    assert_eq!(config.inputs, strings(&["."]));
    assert!(config.recursive);
    assert_eq!(config.format, OutputFormat::Xml);
    assert_eq!(config.metadata_sort, MetadataSort::Lines);
    assert!(config.show_metadata && config.show_dir_list);
    assert!(config.purge_pycache && config.clean_concat_files);
    assert!(!config.show_tree && !config.include_hidden && !config.include_binary);
    assert!(!config.had_user_args);
    assert_eq!(config.output, None);
}

#[test]
fn options_carry_over() {
    let run = RunArgs {
        output: Some("out.txt".to_string()),
        no_recursive: true,
        text: true,
        exts: strings(&[" .RS ", "", "..Txt", " . "]),
        ignore_exts: strings(&["LOCK"]),
        include_globs: strings(&["src/**"]),
        exclude_globs: strings(&["skip.rs", "*.lock", "a/b", "  ", " name "]),
        tree: true,
        hidden: true,
        no_purge_pycache: true,
        verbose: true,
        debug: true,
        no_dir_list: true,
        include_binary: true,
        no_metadata: true,
        metadata_sort: MetadataSort::Characters,
        no_clean_concat: true,
        inputs: strings(&["a", "b"]),
        recursive: false,
    };
    let config = RunConfig::from_cli(Cli { command: None, run }, true).unwrap();
    assert_eq!(config.output, Some("out.txt".to_string()));
    assert!(!config.recursive);
    assert_eq!(config.format, OutputFormat::Text);
    assert_eq!(config.exts, strings(&["rs", "txt"]));
    assert_eq!(config.ignore_exts, strings(&["lock"]));
    assert_eq!(config.include_globs, strings(&["src/**"]));
    assert_eq!(config.exclude_globs, strings(&["**/skip.rs", "*.lock", "a/b", "**/", "**/name"]));
    assert!(config.show_tree && config.include_hidden && config.include_binary);
    assert!(!config.purge_pycache && !config.show_dir_list && !config.show_metadata);
    assert!(!config.clean_concat_files);
    assert!(config.verbose && config.debug && config.had_user_args);
    assert_eq!(config.metadata_sort, MetadataSort::Characters);
    assert_eq!(config.inputs, strings(&["a", "b"]));
}

#[test]
fn extensions_in_normal_form() {
    assert_eq!(normalize_ext(" .RS\t"), "rs");
    assert_eq!(normalize_ext("tar.GZ"), "tar.gz");
    assert_eq!(normalize_ext("\u{a0}.Éa\u{3000}"), "Éa");
    assert_eq!(normalize_ext("\u{b}\u{c}\r\n.rs\u{85}\u{2003}"), "rs");
    assert_eq!(normalize_ext("\u{1f}rs\u{200b}"), "\u{1f}rs\u{200b}");
    assert_eq!(normalize_ext(" "), "");
    assert_eq!(normalize_exts(strings(&["rs", " ", "", ".", "PY"])), strings(&["rs", "py"]));
}

#[test]
fn exclusion_patterns_in_normal_form() {
    assert_eq!(normalize_exclude_glob("skip.rs"), "**/skip.rs");
    assert_eq!(normalize_exclude_glob(" skip.rs "), "**/skip.rs");
    assert_eq!(normalize_exclude_glob("*.lock"), "*.lock");
    assert_eq!(normalize_exclude_glob("a?c"), "a?c");
    assert_eq!(normalize_exclude_glob("[ab]"), "[ab]");
    assert_eq!(normalize_exclude_glob("dir/name"), "dir/name");
    assert_eq!(normalize_exclude_glob(""), "**/");
    assert_eq!(normalize_exclude_globs(strings(&["x", "y/z"])), strings(&["**/x", "y/z"]));
}

#[test]
fn the_names_of_the_formats() {
    assert_eq!(OutputFormat::Xml.as_str(), "xml");
    assert_eq!(OutputFormat::Text.as_str(), "text");
    assert_eq!(MetadataSort::default(), MetadataSort::Lines);
}

#[test]
fn marks_of_a_glob() {
    assert!(has_glob_metacharacters("src/*.rs"));
    assert!(has_glob_metacharacters("a?c"));
    assert!(has_glob_metacharacters("[ab]"));
    assert!(!has_glob_metacharacters("src/main.rs"));
    assert!(!has_glob_metacharacters("a{b,c}"));
    assert!(!has_glob_metacharacters(""));
}

#[test]
fn strings_character_by_character() {
    let chars = chars_of(" \t.a.B \n");
    assert_eq!(chars.len(), 8);
    let trimmed = trim_chars(&chars);
    assert_eq!(string_of(trimmed), ".a.B");
    assert_eq!(string_of(skip_leading(trimmed, '.')), "a.B");
    assert_eq!(string_of(trim_chars(&chars_of(" \n\t"))), "");
    assert_eq!(string_of(skip_leading(&chars_of("..."), '.')), "");
    assert!(contains_char(&chars, 'B'));
    assert!(!contains_char(&chars, 'b'));
    assert_eq!(to_lower_char('Q'), 'q');
    assert_eq!(to_lower_char('é'), 'é');
    assert_eq!(to_lower_char('É'), 'É');
    assert_eq!(string_of(&chars_of("héllo ✓")), "héllo ✓");
}
