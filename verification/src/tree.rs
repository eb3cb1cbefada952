//! The directory tree: one line for each entry, with connectors that show
//! where it hangs.
//!
//! The tree is drawn from a listing that the caller has read. Within each
//! directory the entries stand in the version-aware order of their paths,
//! without the hidden ones unless they are wanted.

use crate::order::{first_comings, in_range, order_paths, ordered_set, picked, views};
use crate::output_name::{last_name, name_start, push_chars};
use crate::paths::{base_name, hidden_name, is_hidden_path};
use crate::strings::{chars_of, string_of};
use crate::text::utf8;
use vstd::prelude::*;

verus! {

/// One entry of a listing.
pub enum TreeEntry {
    /// Anything that is no directory.
    File { path: String },
    /// A directory with its entries, in the order in which they were read.
    Dir { path: String, entries: Vec<TreeEntry> },
}

impl TreeEntry {
    /// The path of the entry.
    pub open spec fn path(self) -> Seq<char> {
        match self {
            TreeEntry::File { path } => path@,
            TreeEntry::Dir { path, entries } => path@,
        }
    }

    /// The path of the entry.
    pub fn path_str(&self) -> (path: &str)
        ensures
            path@ == self.path(),
    {
        match self {
            TreeEntry::File { path } => path.as_str(),
            TreeEntry::Dir { path, .. } => path.as_str(),
        }
    }
}

/// What stands before the name of an entry: one connector for the last
/// entry of its directory, another for the entries before it.
pub open spec fn connector(is_last: bool) -> Seq<char> {
    if is_last {
        "└── "@
    } else {
        "├── "@
    }
}

/// The line of one entry.
pub open spec fn entry_line(prefix: Seq<char>, name: Seq<char>, is_last: bool) -> Seq<char> {
    prefix + connector(is_last) + name + seq!['\n']
}

/// The directory from which the tree is drawn has no line of its own. It is
/// known by its path: a dot, or nothing.
pub open spec fn is_root(path: Seq<char>) -> bool {
    path.len() == 0 || path == seq!['.']
}

/// What stands before the lines of the entries of a directory: the prefix
/// of the directory itself for the root of the tree; else that prefix and,
/// below the last entry of its directory, blanks, below any other a bar.
pub open spec fn prefix_below(prefix: Seq<char>, is_last: bool, at_root: bool) -> Seq<char> {
    if at_root {
        prefix
    } else if is_last {
        prefix + "    "@
    } else {
        prefix + "│   "@
    }
}

/// The tree without the line feed at its end.
pub open spec fn trimmed_tree(lines: Seq<char>) -> Seq<char> {
    if lines.len() > 0 && lines.last() == '\n' {
        lines.drop_last()
    } else {
        lines
    }
}

/// An entry is shown unless it is hidden and hidden entries are not wanted.
pub open spec fn is_shown(entry: TreeEntry, keep_hidden: bool) -> bool {
    keep_hidden || !hidden_name(base_name(utf8(entry.path())))
}

/// The paths of the entries that are shown, as they come.
pub open spec fn shown_paths(entries: Seq<TreeEntry>, keep_hidden: bool) -> Seq<Seq<u8>>
    decreases entries.len(),
{
    if entries.len() == 0 {
        Seq::empty()
    } else if is_shown(entries.last(), keep_hidden) {
        shown_paths(entries.drop_last(), keep_hidden).push(utf8(entries.last().path()))
    } else {
        shown_paths(entries.drop_last(), keep_hidden)
    }
}

/// The index of the first entry with the path `key`; the number of entries
/// if there is none.
pub open spec fn first_with(entries: Seq<TreeEntry>, key: Seq<u8>) -> int
    decreases entries.len(),
{
    if entries.len() == 0 {
        0
    } else if utf8(entries[0].path()) == key {
        0
    } else {
        1 + first_with(entries.skip(1), key)
    }
}

/// The lines of an entry and of all that it holds. A directory has its own
/// line, unless it is the root, and below it the lines of its entries: those
/// that are shown, each path once, in the version-aware order.
pub open spec fn entry_lines(entry: TreeEntry, keep_hidden: bool, prefix: Seq<char>, is_last: bool) -> Seq<
    char,
>
    decreases entry,
{
    match entry {
        TreeEntry::File { path } => entry_line(prefix, last_name(path@), is_last),
        TreeEntry::Dir { path, entries } => {
            let keys = ordered_set(shown_paths(entries@, keep_hidden));
            (if is_root(path@) {
                Seq::empty()
            } else {
                entry_line(prefix, last_name(path@), is_last)
            }) + listing_lines(
                entries@,
                keys,
                keys.len(),
                keep_hidden,
                prefix_below(prefix, is_last, is_root(path@)),
            )
        },
    }
}

/// The lines of the entries of a directory with the first `upto` of the
/// paths `keys`, in the order of the paths.
pub open spec fn listing_lines(
    entries: Seq<TreeEntry>,
    keys: Seq<Seq<u8>>,
    upto: nat,
    keep_hidden: bool,
    prefix: Seq<char>,
) -> Seq<char>
    decreases entries, upto,
{
    if upto == 0 || upto > keys.len() {
        Seq::empty()
    } else {
        let at = first_with(entries, keys[upto - 1]);
        listing_lines(entries, keys, (upto - 1) as nat, keep_hidden, prefix) + (if 0 <= at
            < entries.len() {
            entry_lines(entries[at], keep_hidden, prefix, upto == keys.len())
        } else {
            Seq::empty()
        })
    }
}

/// The tree below a directory: the lines of all that it holds, without the
/// line feed at the end.
pub open spec fn tree_of(root: TreeEntry, keep_hidden: bool) -> Seq<char> {
    trimmed_tree(entry_lines(root, keep_hidden, Seq::empty(), true))
}

proof fn lemma_first_with(entries: Seq<TreeEntry>, key: Seq<u8>, at: int)
    requires
        0 <= at < entries.len(),
        utf8(entries[at].path()) == key,
        forall|r: int| 0 <= r < at ==> utf8(#[trigger] entries[r].path()) != key,
    ensures
        first_with(entries, key) == at,
    decreases at,
{
    if at > 0 {
        let rest = entries.skip(1);
        assert(utf8(entries[0].path()) != key);
        assert(rest[at - 1] == entries[at]);
        assert forall|r: int| 0 <= r < at - 1 implies utf8(#[trigger] rest[r].path()) != key by {
            assert(rest[r] == entries[r + 1]);
        }
        lemma_first_with(rest, key, at - 1);
    }
}

/// Appends the line of one entry.
fn push_line(out: &mut Vec<char>, prefix: &[char], name: &[char], is_last: bool)
    ensures
        final(out)@ == old(out)@ + entry_line(prefix@, name@, is_last),
{
    push_chars(out, prefix);
    let mark = if is_last {
        chars_of("└── ")
    } else {
        chars_of("├── ")
    };
    push_chars(out, mark.as_slice());
    push_chars(out, name);
    out.push('\n');
    assert(final(out)@ =~= old(out)@ + entry_line(prefix@, name@, is_last));
}

/// Appends the line of the entry with the given path.
fn push_line_of(out: &mut Vec<char>, prefix: &[char], path: &str, is_last: bool)
    ensures
        final(out)@ == old(out)@ + entry_line(prefix@, last_name(path@), is_last),
{
    let chars = chars_of(path);
    let start = name_start(chars.as_slice());
    let name = vstd::slice::slice_subrange(chars.as_slice(), start, chars.len());
    assert(name@ =~= last_name(path@));
    push_line(out, prefix, name, is_last);
}

/// Tells whether a path is that of the root of the tree.
fn is_root_path(path: &str) -> (root: bool)
    ensures
        root == is_root(path@),
{
    let chars = chars_of(path);
    let root = chars.len() == 0 || (chars.len() == 1 && chars[0] == '.');
    proof {
        if chars@.len() == 1 && chars@[0] == '.' {
            assert(chars@ =~= seq!['.']);
        }
        if path@ == seq!['.'] {
            assert(path@.len() == 1 && path@[0] == '.');
        }
    }
    root
}

/// The prefix of the lines below a directory.
fn prefix_for_children(prefix: &[char], is_last: bool, at_root: bool) -> (below: Vec<char>)
    ensures
        below@ == prefix_below(prefix@, is_last, at_root),
{
    let mut below: Vec<char> = Vec::new();
    push_chars(&mut below, prefix);
    assert(below@ =~= prefix@);
    if !at_root {
        let more = if is_last {
            chars_of("    ")
        } else {
            chars_of("│   ")
        };
        push_chars(&mut below, more.as_slice());
    }
    below
}

/// The entries of a directory that are shown: their paths, and where each
/// of them stands among the entries.
fn shown_entries<'a>(entries: &'a Vec<TreeEntry>, keep_hidden: bool) -> (shown: (
    Vec<&'a [u8]>,
    Vec<usize>,
))
    ensures
        views(shown.0@) == shown_paths(entries@, keep_hidden),
        shown.1@.len() == shown.0@.len(),
        forall|m: int|
            0 <= m < shown.1@.len() ==> (#[trigger] shown.1@[m]) < entries@.len() && views(
                shown.0@,
            )[m] == utf8(entries@[shown.1@[m] as int].path()) && is_shown(
                entries@[shown.1@[m] as int],
                keep_hidden,
            ),
        forall|m: int, n: int| 0 <= m < n < shown.1@.len() ==> shown.1@[m] < shown.1@[n],
        forall|r: int|
            0 <= r < entries@.len() && is_shown(#[trigger] entries@[r], keep_hidden)
                ==> shown.1@.contains(r as usize),
{
    let mut keys: Vec<&'a [u8]> = Vec::new();
    let mut places: Vec<usize> = Vec::new();
    let mut i: usize = 0;
    assert(entries@.take(0) =~= Seq::empty());
    assert(views(keys@) =~= Seq::empty());
    while i < entries.len()
        invariant
            i <= entries.len(),
            views(keys@) == shown_paths(entries@.take(i as int), keep_hidden),
            places@.len() == keys@.len(),
            forall|m: int|
                0 <= m < places@.len() ==> (#[trigger] places@[m]) < i && views(keys@)[m] == utf8(
                    entries@[places@[m] as int].path(),
                ) && is_shown(entries@[places@[m] as int], keep_hidden),
            forall|m: int, n: int| 0 <= m < n < places@.len() ==> places@[m] < places@[n],
            forall|r: int|
                0 <= r < i && is_shown(#[trigger] entries@[r], keep_hidden) ==> places@.contains(
                    r as usize,
                ),
        decreases entries.len() - i,
    {
        let ghost keys_before = views(keys@);
        let ghost places_before = places@;
        let path = entries[i].path_str();
        proof {
            let upto = entries@.take(i + 1);
            assert(upto.drop_last() =~= entries@.take(i as int));
            assert(upto.last() == entries@[i as int]);
        }
        if keep_hidden || !is_hidden_path(path) {
            keys.push(path.as_bytes());
            places.push(i);
            proof {
                assert(views(keys@) =~= keys_before.push(utf8(path@)));
                assert forall|r: int|
                    0 <= r < i + 1 && is_shown(#[trigger] entries@[r], keep_hidden) implies places@.contains(
                    r as usize,
                ) by {
                    if r < i {
                        assert(places_before.contains(r as usize));
                        let m = choose|m: int|
                            0 <= m < places_before.len() && places_before[m] == r as usize;
                        assert(places@[m] == r as usize);
                    } else {
                        assert(places@[places_before.len() as int] == i);
                    }
                }
            }
        }
        i += 1;
    }
    assert(entries@.take(i as int) =~= entries@);
    (keys, places)
}

/// Appends the lines of an entry and of all that it holds.
fn write_entry(
    entry: &TreeEntry,
    keep_hidden: bool,
    prefix: &[char],
    is_last: bool,
    out: &mut Vec<char>,
)
    ensures
        final(out)@ == old(out)@ + entry_lines(*entry, keep_hidden, prefix@, is_last),
    decreases entry,
{
    match entry {
        TreeEntry::File { path } => {
            push_line_of(out, prefix, path.as_str(), is_last);
        },
        TreeEntry::Dir { path, entries } => {
            let ghost base = out@;
            let at_root = is_root_path(path.as_str());
            if !at_root {
                push_line_of(out, prefix, path.as_str(), is_last);
            }
            let ghost head = out@;
            let below = prefix_for_children(prefix, is_last, at_root);
            let (keys, places) = shown_entries(entries, keep_hidden);
            let order = order_paths(&keys);
            let ghost sorted = picked(views(keys@), order@);
            let total: usize = order.len();
            let mut j: usize = 0;
            assert(out@ =~= head + Seq::empty());
            while j < total
                invariant
                    j <= total,
                    total == order@.len(),
                    *entry matches TreeEntry::Dir { entries: held, .. } && held == *entries,
                    in_range(order@, keys@.len()),
                    first_comings(views(keys@), order@),
                    sorted == picked(views(keys@), order@),
                    places@.len() == keys@.len(),
                    forall|m: int|
                        0 <= m < places@.len() ==> (#[trigger] places@[m]) < entries@.len()
                            && views(keys@)[m] == utf8(entries@[places@[m] as int].path())
                            && is_shown(entries@[places@[m] as int], keep_hidden),
                    forall|m: int, n: int| 0 <= m < n < places@.len() ==> places@[m] < places@[n],
                    forall|r: int|
                        0 <= r < entries@.len() && is_shown(#[trigger] entries@[r], keep_hidden)
                            ==> places@.contains(r as usize),
                    out@ == head + listing_lines(entries@, sorted, j as nat, keep_hidden, below@),
                decreases total - j,
            {
                let at: usize = places[order[j]];
                proof {
                    let m = order@[j as int] as int;
                    let key = sorted[j as int];
                    assert(key == views(keys@)[m]);
                    assert forall|r: int| 0 <= r < at implies utf8(#[trigger] entries@[r].path())
                        != key by {
                        if utf8(entries@[r].path()) == key {
                            assert(is_shown(entries@[at as int], keep_hidden));
                            assert(is_shown(entries@[r], keep_hidden));
                            assert(places@.contains(r as usize));
                            let earlier = choose|e: int|
                                0 <= e < places@.len() && places@[e] == r as usize;
                            if earlier >= m {
                                if earlier > m {
                                    assert(places@[m] < places@[earlier]);
                                }
                            }
                            assert(views(keys@)[earlier] != views(keys@)[m]);
                        }
                    }
                    lemma_first_with(entries@, key, at as int);
                    assert(decreases_to!(*entry => *entries));
                    vstd::std_specs::vec::axiom_vec_index_decreases(*entries, at as int);
                    assert(decreases_to!(*entries => entries[at as int]));
                }
                let ghost before = listing_lines(entries@, sorted, j as nat, keep_hidden, below@);
                write_entry(&entries[at], keep_hidden, below.as_slice(), j + 1 == total, out);
                proof {
                    let line = entry_lines(
                        entries@[at as int],
                        keep_hidden,
                        below@,
                        j + 1 == total,
                    );
                    assert(out@ =~= head + (before + line));
                }
                j += 1;
            }
            proof {
                let lines = listing_lines(
                    entries@,
                    sorted,
                    sorted.len(),
                    keep_hidden,
                    prefix_below(prefix@, is_last, is_root(path@)),
                );
                if at_root {
                    assert(head =~= base + Seq::empty());
                    assert(out@ =~= base + (Seq::empty() + lines));
                } else {
                    assert(out@ =~= base + (entry_line(prefix@, last_name(path@), is_last)
                        + lines));
                }
            }
        },
    }
}

/// Draws the tree below a directory from its listing. The entries of each
/// directory are shown in the version-aware order of their paths, each path
/// once; hidden entries are left out with all that they hold unless
/// `include_hidden` is set. The root itself, whose path is a dot, has no
/// line.
pub fn build_tree(root: &TreeEntry, include_hidden: bool) -> (tree: String)
    ensures
        tree@ == tree_of(*root, include_hidden),
{
    let mut lines: Vec<char> = Vec::new();
    let prefix: Vec<char> = Vec::new();
    write_entry(root, include_hidden, prefix.as_slice(), true, &mut lines);
    assert(lines@ =~= entry_lines(*root, include_hidden, Seq::empty(), true));
    let n: usize = lines.len();
    if n > 0 && lines[n - 1] == '\n' {
        let kept = vstd::slice::slice_subrange(lines.as_slice(), 0, n - 1);
        assert(kept@ =~= lines@.drop_last());
        string_of(kept)
    } else {
        string_of(lines.as_slice())
    }
}

} // verus!
