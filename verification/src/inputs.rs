//! The input items of a run, after their expansion and resolution.

use crate::config::has_wildcard;
use crate::filter::same_string;
use crate::strings::{chars_of, contains_char};
use crate::text::strings;
use vstd::prelude::*;

verus! {

/// The resolved inputs of a run.
pub struct ExpandedInputs {
    /// The resolved paths of the inputs that exist, in their order.
    pub items: Vec<String>,
    /// Those among them that are files, each once.
    pub explicit_files: Vec<String>,
}

/// What looking at one input found.
pub enum InputProbe {
    /// Nothing is there.
    Missing(String),
    /// Something is there, but its path does not resolve.
    Unresolved(String),
    /// A file, with its resolved path.
    File(String),
    /// Anything else that is there, with its resolved path.
    Place(String),
}

/// The resolved path of what a probe found, if it found something.
pub open spec fn resolved_path(probe: InputProbe) -> Option<Seq<char>> {
    match probe {
        InputProbe::Missing(path) => None,
        InputProbe::Unresolved(path) => None,
        InputProbe::File(path) => Some(path@),
        InputProbe::Place(path) => Some(path@),
    }
}

/// The resolved paths of what the probes found, in their order.
pub open spec fn resolved_items(probes: Seq<InputProbe>) -> Seq<Seq<char>>
    decreases probes.len(),
{
    if probes.len() == 0 {
        Seq::empty()
    } else {
        match resolved_path(probes.last()) {
            Some(path) => resolved_items(probes.drop_last()).push(path),
            None => resolved_items(probes.drop_last()),
        }
    }
}

/// The resolved paths of the files among the probes, each at its first
/// coming.
pub open spec fn resolved_files(probes: Seq<InputProbe>) -> Seq<Seq<char>>
    decreases probes.len(),
{
    if probes.len() == 0 {
        Seq::empty()
    } else {
        let earlier = resolved_files(probes.drop_last());
        match probes.last() {
            InputProbe::File(path) => if earlier.contains(path@) {
                earlier
            } else {
                earlier.push(path@)
            },
            _ => earlier,
        }
    }
}

/// Tells whether an input is a glob pattern rather than a path: whether it
/// holds a star, a question mark or an opening bracket.
pub fn has_glob_metacharacters(input: &str) -> (glob: bool)
    ensures
        glob == has_wildcard(input@),
{
    let chars = chars_of(input);
    contains_char(chars.as_slice(), '*') || contains_char(chars.as_slice(), '?') || contains_char(
        chars.as_slice(),
        '[',
    )
}

/// Tells whether a list of strings holds a string.
pub fn holds(list: &Vec<String>, s: &str) -> (found: bool)
    ensures
        found == strings(list@).contains(s@),
{
    let mut i: usize = 0;
    while i < list.len()
        invariant
            i <= list.len(),
            forall|k: int| 0 <= k < i ==> strings(list@)[k] != s@,
        decreases list.len() - i,
    {
        if same_string(list[i].as_str(), s) {
            assert(strings(list@)[i as int] == s@);
            return true;
        }
        i += 1;
    }
    false
}

/// Gathers the inputs of a run from what looking at each of them found:
/// every input that exists and resolves is an item, and the files among
/// them are the explicit files.
pub fn expand_inputs(probes: &Vec<InputProbe>) -> (expanded: ExpandedInputs)
    ensures
        strings(expanded.items@) == resolved_items(probes@),
        strings(expanded.explicit_files@) == resolved_files(probes@),
{
    let mut items: Vec<String> = Vec::new();
    let mut explicit_files: Vec<String> = Vec::new();
    let mut i: usize = 0;
    assert(probes@.take(0) =~= Seq::empty());
    assert(strings(items@) =~= Seq::empty());
    assert(strings(explicit_files@) =~= Seq::empty());
    while i < probes.len()
        invariant
            i <= probes.len(),
            strings(items@) == resolved_items(probes@.take(i as int)),
            strings(explicit_files@) == resolved_files(probes@.take(i as int)),
        decreases probes.len() - i,
    {
        let ghost items_before = strings(items@);
        let ghost files_before = strings(explicit_files@);
        proof {
            let upto = probes@.take(i + 1);
            assert(upto.drop_last() =~= probes@.take(i as int));
            assert(upto.last() == probes@[i as int]);
        }
        match &probes[i] {
            InputProbe::File(path) => {
                if !holds(&explicit_files, path.as_str()) {
                    explicit_files.push(path.clone());
                    assert(strings(explicit_files@) =~= files_before.push(path@));
                }
                items.push(path.clone());
                assert(strings(items@) =~= items_before.push(path@));
            },
            InputProbe::Place(path) => {
                items.push(path.clone());
                assert(strings(items@) =~= items_before.push(path@));
            },
            InputProbe::Missing(_) => {},
            InputProbe::Unresolved(_) => {},
        }
        i += 1;
    }
    assert(probes@.take(i as int) =~= probes@);
    ExpandedInputs { items, explicit_files }
}

} // verus!
