use concat::clean::{compile_clean_matchers, files_to_delete, find_concat_files, CleanPlan};
use concat::cli::{CleanArgs, Cli, RunArgs};
use concat::config::RunConfig;
use concat::discover::{collect_candidate_files, EntryKind, InputItem, WalkEntry};
use concat::filter::{filter_candidates, Candidate, FilterContext};
use concat::inputs::{expand_inputs, InputProbe};
use concat::metadata::{FileContent, LoadedFile};
use concat::output::render_output;
use concat::output_name::resolve_output_path;

/// A file tree held in memory: the working directory and the files below it.
struct Tree {
    cwd: String,
    files: Vec<(String, Vec<u8>)>,
}

impl Tree {
    fn new(cwd: &str) -> Tree {
        Tree { cwd: cwd.to_string(), files: Vec::new() }
    }

    fn write(&mut self, relative: &str, content: &[u8]) -> String {
        let path = format!("{}/{}", self.cwd, relative);
        self.files.push((path.clone(), content.to_vec()));
        path
    }

    fn is_dir(&self, path: &str) -> bool {
        let below = format!("{}/", path);
        path == self.cwd || self.files.iter().any(|(p, _)| p.starts_with(&below))
    }

    fn content(&self, path: &str) -> Option<&Vec<u8>> {
        self.files.iter().find(|(p, _)| p == path).map(|(_, c)| c)
    }

    fn resolve(&self, input: &str) -> String {
        if input == "." {
            self.cwd.clone()
        } else {
            format!("{}/{}", self.cwd, input)
        }
    }

    fn probe(&self, input: &str) -> InputProbe {
        let path = self.resolve(input);
        if self.content(&path).is_some() {
            InputProbe::File(path)
        } else if self.is_dir(&path) {
            InputProbe::Place(path)
        } else {
            InputProbe::Missing(path)
        }
    }

    fn walk(&self, root: &str) -> Vec<WalkEntry> {
        let mut entries =
            vec![WalkEntry { depth: 0, path: root.to_string(), kind: EntryKind::Dir }];
        let below = format!("{}/", root);
        for (path, _) in &self.files {
            if let Some(rest) = path.strip_prefix(&below) {
                let depth = rest.matches('/').count() + 1;
                entries.push(WalkEntry { depth, path: path.clone(), kind: EntryKind::File });
            }
        }
        entries
    }
}

/// What a run leaves behind: where the document goes, which files matched,
/// and the document.
struct Outcome {
    output_path: String,
    matched: Vec<String>,
    document: String,
}

fn run(tree: &Tree, args: RunArgs, had_user_args: bool) -> Outcome {
    let cli = Cli { command: None, run: args };
    let config = RunConfig::from_cli(cli, had_user_args).expect("the options resolve");
    let probes: Vec<InputProbe> = config.inputs.iter().map(|input| tree.probe(input)).collect();
    let expanded = expand_inputs(&probes);
    let sole_dir = if expanded.items.len() == 1 && tree.is_dir(&expanded.items[0]) {
        Some(expanded.items[0].as_str())
    } else {
        None
    };
    let output_path = resolve_output_path(&config, &tree.cwd, sole_dir);
    let items: Vec<InputItem> = expanded
        .items
        .iter()
        .map(|item| {
            if tree.content(item).is_some() {
                InputItem::File(item.clone())
            } else if tree.is_dir(item) {
                InputItem::Dir { root: item.clone(), entries: tree.walk(item) }
            } else {
                InputItem::Other(item.clone())
            }
        })
        .collect();
    let found = collect_candidate_files(&config, &items);
    let candidates: Vec<Candidate> = found
        .iter()
        .map(|path| Candidate { path: path.clone(), head: tree.content(path).cloned() })
        .collect();
    let ctx = FilterContext { explicit_file_inputs: expanded.explicit_files };
    let report = filter_candidates(&config, &ctx, &candidates, Some(output_path.as_str()))
        .expect("the patterns compile");
    let files: Vec<LoadedFile> = report
        .matched
        .iter()
        .map(|path| LoadedFile {
            path: path.clone(),
            absolute: path.clone(),
            content: match tree.content(path) {
                Some(bytes) => FileContent::Bytes(bytes.clone()),
                None => FileContent::Unreadable("No such file or directory".to_string()),
            },
        })
        .collect();
    let document = render_output(&config, &files, None, &tree.cwd);
    Outcome {
        output_path,
        matched: report.matched,
        document: String::from_utf8_lossy(&document).into_owned(),
    }
}

fn args(inputs: &[&str]) -> RunArgs {
    RunArgs { inputs: inputs.iter().map(|s| s.to_string()).collect(), ..RunArgs::default() }
}

#[test]
fn no_args_defaults_to_cwd_named_xml() {
    let tree = Tree::new("/tmp/concat-test-abc");
    let cwd_name = "concat-test-abc";
    let expected = format!("{}/{}", tree.cwd, format!("_concat-{cwd_name}.xml"));

    let outcome = run(&tree, args(&[]), false);

    assert!(outcome.output_path == expected, "Expected output file at {}", expected);
}

#[test]
fn single_dir_input_defaults_to_dir_named_xml() {
    let mut tree = Tree::new("/tmp/concat-test-abc");
    tree.write("src/a.rs", b"fn main() {}\n");
    let expected = format!("{}/{}", tree.cwd, "_concat-src.xml");

    let outcome = run(&tree, args(&["src"]), true);

    assert!(outcome.output_path == expected, "Expected output file at {}", expected);
}

#[test]
fn text_mode_uses_txt_extension() {
    let mut tree = Tree::new("/tmp/concat-test-abc");
    tree.write("src/a.txt", b"hello\n");
    let expected = format!("{}/{}", tree.cwd, "_concat-src.txt");

    let outcome = run(&tree, RunArgs { text: true, ..args(&["src"]) }, true);

    assert_eq!(outcome.output_path, expected);
    assert!(outcome.document.contains("# File Contents (1 files)"));
}

#[test]
fn metadata_xml_is_included_by_default() {
    let mut tree = Tree::new("/tmp/concat-test-abc");
    tree.write("src/a.txt", b"a\nb\n");
    let expected = format!("{}/{}", tree.cwd, "_concat-src.xml");

    let outcome = run(&tree, args(&["src"]), true);

    assert_eq!(outcome.output_path, expected);
    assert!(outcome.document.contains("<fileMetadata count=\"1\">"));
    assert!(outcome.document.contains("<lines>2</lines>"));
    assert!(outcome.document.contains("<characters>4</characters>"));
}

#[test]
fn metadata_text_output_is_included_by_default() {
    let mut tree = Tree::new("/tmp/concat-test-abc");
    tree.write("src/a.txt", b"hello");
    let expected = format!("{}/{}", tree.cwd, "_concat-src.txt");

    let outcome = run(&tree, RunArgs { text: true, ..args(&["src"]) }, true);

    assert_eq!(outcome.output_path, expected);
    assert!(outcome.document.contains("# File Metadata (1 files)"));
    assert!(outcome.document.contains("(lines: 1, chars: 5)"));
}

#[test]
fn metadata_can_be_disabled() {
    let mut tree = Tree::new("/tmp/concat-test-abc");
    tree.write("src/a.txt", b"hello\n");
    let expected = format!("{}/{}", tree.cwd, "_concat-src.xml");

    let outcome = run(&tree, RunArgs { no_metadata: true, ..args(&["src"]) }, true);

    assert_eq!(outcome.output_path, expected);
    assert!(!outcome.document.contains("<fileMetadata"));
}

#[test]
fn ext_filter_sets_output_name() {
    let mut tree = Tree::new("/tmp/concat-test-abc");
    let a = tree.write("src/a.rs", b"fn a() {}\n");
    tree.write("src/b.txt", b"b\n");
    let expected = format!("{}/{}", tree.cwd, "_concat-rs.xml");

    let outcome = run(&tree, RunArgs { exts: vec!["rs".to_string()], ..args(&["src"]) }, true);

    assert_eq!(outcome.output_path, expected);
    assert_eq!(outcome.matched, vec![a]);
    assert!(outcome.document.contains("<fileContents count=\"1\">"));
}

#[test]
fn exclude_filename_is_applied_anywhere_in_tree() {
    let mut tree = Tree::new("/tmp/concat-test-abc");
    let keep = tree.write("src/keep.rs", b"keep\n");
    let skip = tree.write("src/skip.rs", b"skip\n");
    let expected = format!("{}/{}", tree.cwd, "_concat-rs.xml");

    let outcome = run(
        &tree,
        RunArgs {
            exts: vec!["rs".to_string()],
            exclude_globs: vec!["skip.rs".to_string()],
            ..args(&["src"])
        },
        true,
    );

    assert_eq!(outcome.output_path, expected);
    assert!(outcome.document.contains(&keep));
    assert!(!outcome.document.contains(&skip));
}

#[test]
fn include_binary_writes_base64_marker_in_text() {
    let mut tree = Tree::new("/tmp/concat-test-abc");
    tree.write("src/a.txt", b"hello\n");
    tree.write("src/bin.dat", b"\0\0\0binary");
    let expected = format!("{}/{}", tree.cwd, "_concat-src.txt");

    let outcome =
        run(&tree, RunArgs { text: true, include_binary: true, ..args(&["src"]) }, true);

    assert_eq!(outcome.output_path, expected);
    assert!(outcome.document.contains("[BINARY FILE: base64]"));
}

#[test]
fn include_glob_can_select_hidden_files_without_hidden_flag() {
    let mut tree = Tree::new("/tmp/concat-test-abc");
    let hidden = tree.write("src/.env", b"SECRET=1\n");
    let expected = format!("{}/{}", tree.cwd, "_concat-src.xml");

    let outcome = run(
        &tree,
        RunArgs { include_globs: vec!["**/.env".to_string()], ..args(&["src"]) },
        true,
    );

    assert_eq!(outcome.output_path, expected);
    assert!(outcome.document.contains(&hidden));
}

#[test]
fn clean_subcommand_respects_extension_filter() {
    let mut tree = Tree::new("/tmp/concat-test-abc");
    let a = tree.write("_concat-a.xml", b"a");
    let b = tree.write("_concat-b.txt", b"b");

    let plan = CleanPlan::from_args(CleanArgs {
        no_recursive: true,
        exts: vec!["txt".to_string()],
        ..CleanArgs::default()
    })
    .expect("the options resolve");
    let matchers = compile_clean_matchers(&plan).expect("the patterns compile");
    let listing: Vec<String> = tree.files.iter().map(|(path, _)| path.clone()).collect();
    let doomed = files_to_delete(&plan, &matchers, &find_concat_files(&listing));

    assert!(!doomed.contains(&a));
    assert!(doomed.contains(&b));
}

#[test]
fn binary_file_is_left_out_unless_binary_files_are_wanted() {
    let mut tree = Tree::new("/tmp/concat-test-abc");
    let text = tree.write("src/a.txt", b"hello\n");
    let binary = tree.write("src/bin.dat", b"\0\0\0binary");

    let without = run(&tree, RunArgs { text: true, ..args(&["src"]) }, true);
    assert_eq!(without.matched, vec![text.clone()]);

    let with = run(&tree, RunArgs { text: true, include_binary: true, ..args(&["src"]) }, true);
    assert_eq!(with.matched, vec![text, binary]);
    assert!(with.document.contains("[BINARY FILE: base64]\nAAAAYmluYXJ5\n"));
}

#[test]
fn nothing_matched_is_said_in_both_forms() {
    let tree = Tree::new("/tmp/concat-test-abc");

    let xml = run(&tree, args(&[]), false);
    assert!(xml.matched.is_empty());
    assert!(xml.document.contains("<fileContents count=\"0\">"));
    assert!(xml.document.contains("<message>No files matched the criteria.</message>"));

    let plain = run(&tree, RunArgs { text: true, ..args(&[]) }, false);
    assert!(plain.document.contains("# File Contents (0 files)"));
    assert!(plain.document.contains("No files matched the criteria."));
}

#[test]
fn the_document_never_holds_itself() {
    let mut tree = Tree::new("/tmp/concat-test-abc");
    let a = tree.write("src/a.txt", b"a\n");
    let own = tree.write("src/out.xml", b"<old/>\n");

    let outcome =
        run(&tree, RunArgs { output: Some("src/out.xml".to_string()), ..args(&["src"]) }, true);

    assert_eq!(outcome.output_path, own);
    assert_eq!(outcome.matched, vec![a]);
}

#[test]
fn a_hidden_file_named_as_input_is_taken() {
    let mut tree = Tree::new("/tmp/concat-test-abc");
    let hidden = tree.write("src/.env", b"KEY=1\n");
    tree.write("src/a.txt", b"a\n");

    let by_walk = run(&tree, args(&["src"]), true);
    assert!(!by_walk.matched.contains(&hidden));

    let by_name = run(&tree, args(&["src/.env"]), true);
    assert_eq!(by_name.matched, vec![hidden]);
}
