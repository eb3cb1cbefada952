use concat::cli::{Cli, RunArgs};
use concat::config::RunConfig;
use concat::discover::{
    collect_candidate_files, finish_candidates, gather_walk, globs_reach_hidden, max_depth,
    root_is_hidden, walk_decision, walk_policy, EntryKind, InputItem, WalkAction, WalkEntry,
    WalkPolicy,
};
use concat::order::order_paths;

fn strings(list: &[&str]) -> Vec<String> {
    list.iter().map(|s| s.to_string()).collect()
}

fn config(run: RunArgs) -> RunConfig {
    RunConfig::from_cli(Cli { command: None, run }, true).unwrap()
}

fn file(depth: usize, path: &str) -> WalkEntry {
    WalkEntry { depth, path: path.to_string(), kind: EntryKind::File }
}

fn dir(depth: usize, path: &str) -> WalkEntry {
    WalkEntry { depth, path: path.to_string(), kind: EntryKind::Dir }
}

fn a_tree() -> Vec<WalkEntry> {
    vec![
        dir(0, "/w/src"),
        file(1, "/w/src/b.rs"),
        file(1, "/w/src/.env"),
        dir(1, "/w/src/.git"),
        file(2, "/w/src/.git/config"),
        dir(2, "/w/src/.git/hooks"),
        file(3, "/w/src/.git/hooks/run"),
        dir(1, "/w/src/sub"),
        file(2, "/w/src/sub/a.rs"),
        file(2, "/w/src/sub/.hidden"),
        dir(2, "/w/src/sub/.cache"),
        file(3, "/w/src/sub/.cache/x"),
    ]
}

fn walk(run: RunArgs, root: &str, entries: Vec<WalkEntry>) -> Vec<String> {
    let items = vec![InputItem::Dir { root: root.to_string(), entries }];
    collect_candidate_files(&config(run), &items)
}

#[test]
fn hidden_entries_right_under_the_root_are_pruned_with_all_they_hold() {
    let found = walk(RunArgs::default(), "/w/src", a_tree());
    assert_eq!(
        found,
        strings(&[
            "/w/src/b.rs",
            "/w/src/sub/.cache/x",
            "/w/src/sub/.hidden",
            "/w/src/sub/a.rs",
        ])
    );
}

#[test]
fn below_a_hidden_root_every_hidden_entry_is_pruned() {
    let entries = vec![
        dir(0, "/w/.src"),
        file(1, "/w/.src/a.rs"),
        dir(1, "/w/.src/sub"),
        file(2, "/w/.src/sub/.hidden"),
        dir(2, "/w/.src/sub/.cache"),
        file(3, "/w/.src/sub/.cache/x"),
        file(2, "/w/.src/sub/b.rs"),
    ];
    let found = walk(RunArgs::default(), "/w/.src", entries);
    assert_eq!(found, strings(&["/w/.src/a.rs", "/w/.src/sub/b.rs"]));
}

#[test]
fn nothing_is_pruned_where_hidden_entries_are_wanted() {
    let found = walk(RunArgs { hidden: true, ..RunArgs::default() }, "/w/src", a_tree());
    assert_eq!(found.len(), 7);
    assert!(found.contains(&"/w/src/.env".to_string()));
    assert!(found.contains(&"/w/src/.git/hooks/run".to_string()));
}

#[test]
fn nothing_is_pruned_where_a_pattern_reaches_into_hidden_places() {
    let run = RunArgs { include_globs: strings(&["**/.env"]), ..RunArgs::default() };
    let found = walk(run, "/w/src", a_tree());
    assert_eq!(found.len(), 7);
}

#[test]
fn a_walk_that_is_not_recursive_stops_at_the_entries_of_the_root() {
    let run = RunArgs { no_recursive: true, ..RunArgs::default() };
    assert_eq!(max_depth(&config(RunArgs { no_recursive: true, ..RunArgs::default() })), Some(1));
    assert_eq!(max_depth(&config(RunArgs::default())), None);
    let found = walk(run, "/w/src", a_tree());
    assert_eq!(found, strings(&["/w/src/b.rs"]));
}

#[test]
fn files_are_taken_as_they_are_and_other_items_left_out() {
    let items = vec![
        InputItem::File("/w/z.txt".to_string()),
        InputItem::Other("/w/socket".to_string()),
        InputItem::File("/w/.hidden".to_string()),
        InputItem::Dir { root: "/w/src".to_string(), entries: vec![dir(0, "/w/src"), file(1, "/w/src/a")] },
        InputItem::File("/w/z.txt".to_string()),
    ];
    let found = collect_candidate_files(&config(RunArgs::default()), &items);
    assert_eq!(found, strings(&["/w/.hidden", "/w/src/a", "/w/z.txt"]));
}

#[test]
fn candidates_are_ordered_and_stand_once() {
    let raw = strings(&["/w/file10", "/w/file2", "/w/file10", "/w/a", "/w/file1", "/w/file2"]);
    assert_eq!(
        finish_candidates(&raw),
        strings(&["/w/a", "/w/file1", "/w/file2", "/w/file10"])
    );
    assert_eq!(finish_candidates(&Vec::new()), Vec::<String>::new());
}

#[test]
fn paths_of_one_rank_stand_as_they_first_came() {
    let raw = strings(&["a7", "a007", "a7", "a07", "a007", "a6", "a8"]);
    assert_eq!(finish_candidates(&raw), strings(&["a6", "a7", "a007", "a07", "a8"]));
    let other = strings(&["a007", "a7"]);
    assert_eq!(finish_candidates(&other), strings(&["a007", "a7"]));
}

#[test]
fn ordering_twice_changes_nothing() {
    let raw = strings(&["b", "a7", "a007", "b", "a10", "a7", "", "a2"]);
    let once = finish_candidates(&raw);
    assert_eq!(once, strings(&["", "a2", "a7", "a007", "a10", "b"]));
    assert_eq!(finish_candidates(&once), once);
}

#[test]
fn ordering_by_index() {
    let keys: Vec<&[u8]> = vec![b"b", b"a10", b"a2", b"b", b"a02"];
    assert_eq!(order_paths(&keys), vec![2, 4, 1, 0]);
    assert_eq!(order_paths(&Vec::new()), Vec::<usize>::new());
}

#[test]
fn decisions_on_single_entries() {
    let policy = WalkPolicy { keep_hidden: false, globs_reach_hidden: false, recursive: true };
    assert_eq!(walk_decision(&policy, false, &dir(0, "/w/.src")), WalkAction::Pass);
    assert_eq!(walk_decision(&policy, false, &file(1, "/w/src/a")), WalkAction::Collect);
    assert_eq!(walk_decision(&policy, false, &file(1, "/w/src/.a")), WalkAction::Skip);
    assert_eq!(walk_decision(&policy, false, &dir(1, "/w/src/.d")), WalkAction::Skip);
    assert_eq!(walk_decision(&policy, false, &file(2, "/w/src/d/.a")), WalkAction::Collect);
    assert_eq!(walk_decision(&policy, true, &file(2, "/w/.src/d/.a")), WalkAction::Skip);
    assert_eq!(walk_decision(&policy, false, &dir(1, "/w/src/d")), WalkAction::Pass);
    let other = WalkEntry { depth: 1, path: "/w/src/pipe".to_string(), kind: EntryKind::Other };
    assert_eq!(walk_decision(&policy, false, &other), WalkAction::Pass);
    let flat = WalkPolicy { recursive: false, ..policy };
    assert_eq!(walk_decision(&flat, false, &file(2, "/w/src/d/a")), WalkAction::Skip);
    assert_eq!(walk_decision(&flat, false, &file(1, "/w/src/a")), WalkAction::Collect);
    let keep = WalkPolicy { keep_hidden: true, ..policy };
    assert_eq!(walk_decision(&keep, true, &file(1, "/w/.src/.a")), WalkAction::Collect);
}

#[test]
fn the_policy_of_a_configuration() {
    let plain = walk_policy(&config(RunArgs::default()));
    assert_eq!(
        plain,
        WalkPolicy { keep_hidden: false, globs_reach_hidden: false, recursive: true }
    );
    let other = walk_policy(&config(RunArgs {
        hidden: true,
        no_recursive: true,
        include_globs: strings(&["a", "b/.c"]),
        ..RunArgs::default()
    }));
    assert_eq!(other, WalkPolicy { keep_hidden: true, globs_reach_hidden: true, recursive: false });
    assert!(globs_reach_hidden(&strings(&[".x"])));
    assert!(!globs_reach_hidden(&strings(&["x", "y.z"])));
    assert!(root_is_hidden("/w/.src"));
    assert!(!root_is_hidden("/w/src"));
    assert!(!root_is_hidden("/"));
}

#[test]
fn gathering_adds_to_what_is_there() {
    let policy = WalkPolicy { keep_hidden: false, globs_reach_hidden: false, recursive: true };
    let mut raw = strings(&["/first"]);
    gather_walk(&policy, false, &a_tree(), &mut raw);
    assert_eq!(
        raw,
        strings(&[
            "/first",
            "/w/src/b.rs",
            "/w/src/sub/a.rs",
            "/w/src/sub/.hidden",
            "/w/src/sub/.cache/x",
        ])
    );
}
