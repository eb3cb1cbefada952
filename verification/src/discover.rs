//! Discovery: from the input items and what a walk of their directories
//! met, to the ordered candidate set.
//!
//! The walk itself is the caller's. The library decides on each entry,
//! gathers the files that a walk yields, and orders them.

use crate::config::RunConfig;
use crate::filter::{implies_hidden, pattern_implies_hidden};
use crate::paths::{base_name, file_name, hidden_name, is_hidden_name};
use crate::order::{in_range, order_paths, ordered_set, ordered_set_of, picked, views};
use crate::text::{strings, utf8};
use vstd::prelude::*;

verus! {

/// What kind of thing a walk met.
#[derive(Clone, Copy, Debug, PartialEq, Eq, Structural)]
pub enum EntryKind {
    /// A regular file.
    File,
    /// A directory.
    Dir,
    /// Anything else.
    Other,
}

/// One entry that a walk met.
pub struct WalkEntry {
    /// How far below the root of the walk it lies; the root itself is at 0.
    pub depth: usize,
    /// Its path.
    pub path: String,
    /// Its kind.
    pub kind: EntryKind,
}

/// One input item, with what was found out about it.
pub enum InputItem {
    /// A file.
    File(String),
    /// A directory, with the entries of its walk in the order of their
    /// coming: each directory before what it holds.
    Dir { root: String, entries: Vec<WalkEntry> },
    /// Neither of the two.
    Other(String),
}

/// What to do with an entry of a walk.
#[derive(Clone, Copy, Debug, PartialEq, Eq, Structural)]
pub enum WalkAction {
    /// It is a candidate.
    Collect,
    /// It is no candidate; the walk goes on, and into it if it is a
    /// directory.
    Pass,
    /// It is left out, and if it is a directory so is all that it holds.
    Skip,
}

/// The part of the configuration that steers a walk.
#[derive(Clone, Copy, Debug, PartialEq, Eq, Structural)]
pub struct WalkPolicy {
    /// Hidden entries are wanted.
    pub keep_hidden: bool,
    /// An inclusion pattern reaches into hidden places.
    pub globs_reach_hidden: bool,
    /// The walk goes below the entries of the root.
    pub recursive: bool,
}

/// One of the patterns reaches into hidden places.
pub open spec fn some_reach_hidden(patterns: Seq<String>) -> bool {
    exists|i: int| 0 <= i < patterns.len() && implies_hidden(#[trigger] patterns[i]@)
}

/// The walk policy of a configuration.
pub open spec fn policy_of(config: RunConfig) -> WalkPolicy {
    WalkPolicy {
        keep_hidden: config.include_hidden,
        globs_reach_hidden: some_reach_hidden(config.include_globs@),
        recursive: config.recursive,
    }
}

/// Hidden-path pruning: a hidden entry below the root is pruned when it lies
/// right under the root or the root is hidden itself, unless hidden entries
/// are wanted or an inclusion pattern reaches into hidden places.
pub open spec fn prunes(policy: WalkPolicy, root_hidden: bool, entry: WalkEntry) -> bool {
    &&& !policy.keep_hidden
    &&& !policy.globs_reach_hidden
    &&& entry.depth > 0
    &&& hidden_name(base_name(utf8(entry.path@)))
    &&& (root_hidden || entry.depth == 1)
}

/// A walk that is not recursive stops at the entries of the root.
pub open spec fn too_deep(policy: WalkPolicy, entry: WalkEntry) -> bool {
    !policy.recursive && entry.depth > 1
}

/// What the policy decides on an entry.
pub open spec fn action_for(policy: WalkPolicy, root_hidden: bool, entry: WalkEntry) -> WalkAction {
    if too_deep(policy, entry) || prunes(policy, root_hidden, entry) {
        WalkAction::Skip
    } else if entry.kind == EntryKind::File {
        WalkAction::Collect
    } else {
        WalkAction::Pass
    }
}

/// The entry lies below a directory that was skipped at depth `skipped`.
pub open spec fn inside(skipped: Option<usize>, entry: WalkEntry) -> bool {
    match skipped {
        Some(depth) => entry.depth > depth,
        None => false,
    }
}

/// After the entries `walked`: the depth of the skipped directory whose
/// contents the walk is passing over, if it is passing over any.
pub open spec fn skipping(policy: WalkPolicy, root_hidden: bool, walked: Seq<WalkEntry>) -> Option<
    usize,
>
    decreases walked.len(),
{
    if walked.len() == 0 {
        None
    } else {
        let before = skipping(policy, root_hidden, walked.drop_last());
        let entry = walked.last();
        if inside(before, entry) {
            before
        } else if action_for(policy, root_hidden, entry) == WalkAction::Skip && entry.kind
            == EntryKind::Dir {
            Some(entry.depth)
        } else {
            None
        }
    }
}

/// The candidates among the entries of one walk: the files that are neither
/// skipped themselves nor lie below a skipped directory.
pub open spec fn gathered(policy: WalkPolicy, root_hidden: bool, walked: Seq<WalkEntry>) -> Seq<
    Seq<char>,
>
    decreases walked.len(),
{
    if walked.len() == 0 {
        Seq::empty()
    } else {
        let before = gathered(policy, root_hidden, walked.drop_last());
        let entry = walked.last();
        if !inside(skipping(policy, root_hidden, walked.drop_last()), entry) && action_for(
            policy,
            root_hidden,
            entry,
        ) == WalkAction::Collect {
            before.push(entry.path@)
        } else {
            before
        }
    }
}

/// What one input item adds to the candidates.
pub open spec fn yield_of(policy: WalkPolicy, item: InputItem) -> Seq<Seq<char>> {
    match item {
        InputItem::File(path) => seq![path@],
        InputItem::Dir { root, entries } => gathered(
            policy,
            hidden_name(base_name(utf8(root@))),
            entries@,
        ),
        InputItem::Other(path) => Seq::empty(),
    }
}

/// The candidates of all input items, as they come.
pub open spec fn found(policy: WalkPolicy, items: Seq<InputItem>) -> Seq<Seq<char>>
    decreases items.len(),
{
    if items.len() == 0 {
        Seq::empty()
    } else {
        found(policy, items.drop_last()) + yield_of(policy, items.last())
    }
}

/// The bytes of each path of a list.
pub open spec fn bytes_of(list: Seq<Seq<char>>) -> Seq<Seq<u8>> {
    list.map_values(|s: Seq<char>| utf8(s))
}

/// `set` is the candidate set of `raw`: the same paths, each once, in the
/// version-aware order, and those of one rank in the order of their first
/// coming.
pub open spec fn candidate_set_of(raw: Seq<Seq<char>>, set: Seq<Seq<char>>) -> bool {
    ordered_set_of(bytes_of(raw), bytes_of(set))
}

/// The greatest depth that a walk visits, if it is bounded.
pub fn max_depth(config: &RunConfig) -> (limit: Option<usize>)
    ensures
        limit == (if config.recursive {
            None::<usize>
        } else {
            Some(1usize)
        }),
{
    if config.recursive {
        None
    } else {
        Some(1)
    }
}

/// Tells whether one of the patterns reaches into hidden places.
pub fn globs_reach_hidden(patterns: &Vec<String>) -> (reach: bool)
    ensures
        reach == some_reach_hidden(patterns@),
{
    let mut i: usize = 0;
    while i < patterns.len()
        invariant
            i <= patterns.len(),
            forall|k: int| 0 <= k < i ==> !implies_hidden(#[trigger] patterns@[k]@),
        decreases patterns.len() - i,
    {
        if pattern_implies_hidden(patterns[i].as_str()) {
            return true;
        }
        i += 1;
    }
    false
}

/// The walk policy of a configuration.
pub fn walk_policy(config: &RunConfig) -> (policy: WalkPolicy)
    ensures
        policy == policy_of(*config),
{
    WalkPolicy {
        keep_hidden: config.include_hidden,
        globs_reach_hidden: globs_reach_hidden(&config.include_globs),
        recursive: config.recursive,
    }
}

/// Tells whether the name of a walk's root is hidden.
pub fn root_is_hidden(root: &str) -> (hidden: bool)
    ensures
        hidden == hidden_name(base_name(utf8(root@))),
{
    is_hidden_name(file_name(root.as_bytes()))
}

/// Decides on one entry of a walk.
pub fn walk_decision(policy: &WalkPolicy, root_hidden: bool, entry: &WalkEntry) -> (action:
    WalkAction)
    ensures
        action == action_for(*policy, root_hidden, *entry),
{
    if !policy.recursive && entry.depth > 1 {
        return WalkAction::Skip;
    }
    if !policy.keep_hidden && !policy.globs_reach_hidden && entry.depth > 0 {
        let name_hidden = is_hidden_name(file_name(entry.path.as_str().as_bytes()));
        if name_hidden && (root_hidden || entry.depth == 1) {
            return WalkAction::Skip;
        }
    }
    if entry.kind == EntryKind::File {
        WalkAction::Collect
    } else {
        WalkAction::Pass
    }
}

/// Gathers the candidates of one walk: it adds to `raw`, in their order, the
/// files among `entries` that are neither skipped nor lie below a skipped
/// directory.
pub fn gather_walk(
    policy: &WalkPolicy,
    root_hidden: bool,
    entries: &Vec<WalkEntry>,
    raw: &mut Vec<String>,
)
    ensures
        strings(final(raw)@) == strings(old(raw)@) + gathered(*policy, root_hidden, entries@),
{
    let ghost start = strings(raw@);
    let mut skipped: Option<usize> = None;
    let mut i: usize = 0;
    assert(entries@.take(0) =~= Seq::empty());
    assert(strings(raw@) =~= start + Seq::empty());
    while i < entries.len()
        invariant
            i <= entries.len(),
            skipped == skipping(*policy, root_hidden, entries@.take(i as int)),
            strings(raw@) == start + gathered(*policy, root_hidden, entries@.take(i as int)),
        decreases entries.len() - i,
    {
        let entry = &entries[i];
        let ghost before = strings(raw@);
        proof {
            let upto = entries@.take(i + 1);
            assert(upto.drop_last() =~= entries@.take(i as int));
            assert(upto.last() == *entry);
        }
        let below = match skipped {
            Some(depth) => entry.depth > depth,
            None => false,
        };
        if !below {
            let action = walk_decision(policy, root_hidden, entry);
            if action == WalkAction::Collect {
                raw.push(entry.path.clone());
                proof {
                    let earlier = gathered(*policy, root_hidden, entries@.take(i as int));
                    assert(strings(raw@) =~= before.push(entry.path@));
                    assert(start + earlier.push(entry.path@) =~= (start + earlier).push(
                        entry.path@,
                    ));
                }
            }
            if action == WalkAction::Skip && entry.kind == EntryKind::Dir {
                skipped = Some(entry.depth);
            } else {
                skipped = None;
            }
        }
        i += 1;
    }
    assert(entries@.take(i as int) =~= entries@);
}

/// Orders the candidates and drops the repeats. The result holds the paths
/// of `raw`, each once, in the version-aware order; paths of one rank stand
/// in the order of their first coming.
pub fn finish_candidates(raw: &Vec<String>) -> (set: Vec<String>)
    ensures
        candidate_set_of(strings(raw@), strings(set@)),
        bytes_of(strings(set@)) == ordered_set(bytes_of(strings(raw@))),
{
    let mut keys: Vec<&[u8]> = Vec::new();
    let mut i: usize = 0;
    while i < raw.len()
        invariant
            i <= raw.len(),
            keys@.len() == i,
            forall|k: int| 0 <= k < i ==> (#[trigger] keys@[k])@ == utf8(raw@[k]@),
        decreases raw.len() - i,
    {
        keys.push(raw[i].as_str().as_bytes());
        i += 1;
    }
    assert(views(keys@) =~= bytes_of(strings(raw@)));
    let order = order_paths(&keys);
    let mut set: Vec<String> = Vec::new();
    let mut j: usize = 0;
    while j < order.len()
        invariant
            j <= order.len(),
            set@.len() == j,
            in_range(order@, raw@.len()),
            forall|k: int| 0 <= k < j ==> (#[trigger] set@[k])@ == raw@[order@[k] as int]@,
        decreases order.len() - j,
    {
        set.push(raw[order[j]].clone());
        j += 1;
    }
    assert(bytes_of(strings(set@)) =~= picked(views(keys@), order@));
    set
}

/// The candidate set of a run: the files among the input items and the
/// files that the walks of the directories among them yield, each once, in
/// the version-aware order.
pub fn collect_candidate_files(config: &RunConfig, items: &Vec<InputItem>) -> (candidates: Vec<
    String,
>)
    ensures
        candidate_set_of(found(policy_of(*config), items@), strings(candidates@)),
        bytes_of(strings(candidates@)) == ordered_set(bytes_of(found(policy_of(*config), items@))),
{
    let policy = walk_policy(config);
    let mut raw: Vec<String> = Vec::new();
    let mut i: usize = 0;
    assert(items@.take(0) =~= Seq::empty());
    assert(strings(raw@) =~= Seq::empty());
    while i < items.len()
        invariant
            i <= items.len(),
            policy == policy_of(*config),
            strings(raw@) == found(policy, items@.take(i as int)),
        decreases items.len() - i,
    {
        let ghost before = strings(raw@);
        proof {
            let upto = items@.take(i + 1);
            assert(upto.drop_last() =~= items@.take(i as int));
            assert(upto.last() == items@[i as int]);
        }
        match &items[i] {
            InputItem::File(path) => {
                raw.push(path.clone());
                assert(strings(raw@) =~= before + seq![path@]);
            },
            InputItem::Dir { root, entries } => {
                let hidden = root_is_hidden(root.as_str());
                gather_walk(&policy, hidden, entries, &mut raw);
            },
            InputItem::Other(_) => {
                assert(before + Seq::<Seq<char>>::empty() =~= before);
            },
        }
        i += 1;
    }
    assert(items@.take(i as int) =~= items@);
    finish_candidates(&raw)
}

} // verus!
