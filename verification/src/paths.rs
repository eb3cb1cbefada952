//! Paths as byte strings with `/` between their components: base names,
//! parent directories, extensions and hidden names.

use crate::text::utf8;
use vstd::prelude::*;

verus! {

/// The byte that separates the components of a path.
pub const SEPARATOR: u8 = 47;

/// The byte that starts a hidden name and an extension.
pub const DOT: u8 = 46;

/// Index of the last occurrence of `b` in `s`, or -1 when there is none.
pub open spec fn last_index_of(s: Seq<u8>, b: u8) -> int
    decreases s.len(),
{
    if s.len() == 0 {
        -1
    } else if s.last() == b {
        s.len() - 1
    } else {
        last_index_of(s.drop_last(), b)
    }
}

/// The last component of a path: what follows its last separator, or the
/// whole path when it has none.
pub open spec fn base_name(path: Seq<u8>) -> Seq<u8> {
    path.skip(last_index_of(path, SEPARATOR) + 1)
}

/// The directory that holds the last component of a path: what stands
/// before the last separator, the root for an entry of the root, and nothing
/// for a bare name.
pub open spec fn parent_dir(path: Seq<u8>) -> Seq<u8> {
    let cut = last_index_of(path, SEPARATOR);
    if cut < 0 {
        Seq::empty()
    } else if cut == 0 {
        path.take(1)
    } else {
        path.take(cut)
    }
}

/// A name is hidden when it starts with a dot.
pub open spec fn hidden_name(name: Seq<u8>) -> bool {
    name.len() > 0 && name[0] == DOT
}

/// A path is hidden when its base name is.
pub open spec fn hidden_path(path: Seq<u8>) -> bool {
    hidden_name(base_name(path))
}

/// The extension of a path: what follows the last dot of its base name,
/// unless that dot starts the name or there is none.
pub open spec fn extension(path: Seq<u8>) -> Seq<u8> {
    let name = base_name(path);
    let dot = last_index_of(name, DOT);
    if dot <= 0 {
        Seq::empty()
    } else {
        name.skip(dot + 1)
    }
}

/// The ASCII lower-case form of a byte.
pub open spec fn lower(b: u8) -> u8 {
    if 65 <= b && b <= 90 {
        (b + 32) as u8
    } else {
        b
    }
}

/// The ASCII lower-case form of a byte string.
pub open spec fn lower_bytes(s: Seq<u8>) -> Seq<u8> {
    Seq::new(s.len(), |i: int| lower(s[i]))
}

/// The extension of a path in lower case, by which the extension lists are
/// searched.
pub open spec fn ext_lower(path: Seq<u8>) -> Seq<u8> {
    lower_bytes(extension(path))
}

/// `needle` occurs in `s` at index `at`.
pub open spec fn occurs_at(s: Seq<u8>, needle: Seq<u8>, at: int) -> bool {
    0 <= at && at + needle.len() <= s.len() && s.subrange(at, at + needle.len()) == needle
}

/// `needle` occurs somewhere in `s`.
pub open spec fn occurs_in(s: Seq<u8>, needle: Seq<u8>) -> bool {
    exists|at: int| occurs_at(s, needle, at)
}

/// An index that holds `b` and is followed by no other is the last
/// occurrence; where no index holds `b` there is none.
pub proof fn lemma_last_index_is(s: Seq<u8>, b: u8, at: int)
    requires
        -1 <= at < s.len(),
        at >= 0 ==> s[at] == b,
        forall|k: int| at < k < s.len() ==> s[k] != b,
    ensures
        last_index_of(s, b) == at,
    decreases s.len(),
{
    if s.len() > 0 && s.last() != b {
        lemma_last_index_is(s.drop_last(), b, at);
    }
}

/// Finds the last occurrence of a byte.
pub fn find_last(s: &[u8], b: u8) -> (found: Option<usize>)
    ensures
        match found {
            Some(at) => at == last_index_of(s@, b) && at < s@.len(),
            None => last_index_of(s@, b) == -1,
        },
{
    let mut i: usize = s.len();
    while i > 0
        invariant
            i <= s.len(),
            forall|k: int| i <= k < s.len() ==> s@[k] != b,
        decreases i,
    {
        if s[i - 1] == b {
            proof {
                lemma_last_index_is(s@, b, i - 1);
            }
            return Some(i - 1);
        }
        i -= 1;
    }
    proof {
        lemma_last_index_is(s@, b, -1);
    }
    None
}

/// The base name of a path, as a part of its bytes.
pub fn file_name(path: &[u8]) -> (name: &[u8])
    ensures
        name@ == base_name(path@),
{
    let end: usize = path.len();
    let start: usize = match find_last(path, SEPARATOR) {
        Some(at) => at + 1,
        None => 0,
    };
    vstd::slice::slice_subrange(path, start, end)
}

/// The parent directory of a path, as a part of its bytes.
pub fn parent_of(path: &[u8]) -> (dir: &[u8])
    ensures
        dir@ == parent_dir(path@),
{
    match find_last(path, SEPARATOR) {
        Some(at) => {
            if at == 0 {
                vstd::slice::slice_subrange(path, 0, 1)
            } else {
                vstd::slice::slice_subrange(path, 0, at)
            }
        },
        None => vstd::slice::slice_subrange(path, 0, 0),
    }
}

/// Tells whether a name starts with a dot.
pub fn is_hidden_name(name: &[u8]) -> (hidden: bool)
    ensures
        hidden == hidden_name(name@),
{
    name.len() > 0 && name[0] == DOT
}

/// Tells whether the base name of a path starts with a dot.
pub fn is_hidden_path(path: &str) -> (hidden: bool)
    ensures
        hidden == hidden_path(utf8(path@)),
{
    is_hidden_name(file_name(path.as_bytes()))
}

/// The lower-case extension of a path, empty when it has none.
pub fn path_ext_lower(path: &str) -> (ext: Vec<u8>)
    ensures
        ext@ == ext_lower(utf8(path@)),
{
    let name = file_name(path.as_bytes());
    let end: usize = name.len();
    let mut ext: Vec<u8> = Vec::new();
    let start: usize = match find_last(name, DOT) {
        Some(at) => {
            if at == 0 {
                return ext;
            }
            at + 1
        },
        None => {
            return ext;
        },
    };
    let mut i: usize = start;
    while i < end
        invariant
            end == name.len(),
            start <= i <= name.len(),
            ext@.len() == i - start,
            forall|k: int| 0 <= k < ext@.len() ==> ext@[k] == lower(name@[start + k]),
        decreases name.len() - i,
    {
        ext.push(to_lower(name[i]));
        i += 1;
    }
    assert(ext@ =~= lower_bytes(name@.skip(start as int)));
    ext
}

/// The ASCII lower-case form of a byte.
pub fn to_lower(b: u8) -> (l: u8)
    ensures
        l == lower(b),
{
    if 65 <= b && b <= 90 {
        b + 32
    } else {
        b
    }
}

/// Tells whether two byte strings are equal.
pub fn bytes_equal(x: &[u8], y: &[u8]) -> (equal: bool)
    ensures
        equal == (x@ == y@),
{
    if x.len() != y.len() {
        return false;
    }
    let mut i: usize = 0;
    while i < x.len()
        invariant
            i <= x.len(),
            x.len() == y.len(),
            forall|k: int| 0 <= k < i ==> x@[k] == y@[k],
        decreases x.len() - i,
    {
        if x[i] != y[i] {
            return false;
        }
        i += 1;
    }
    assert(x@ =~= y@);
    true
}

/// Tells whether `s` starts with `prefix`.
pub fn starts_with(s: &[u8], prefix: &[u8]) -> (yes: bool)
    ensures
        yes == occurs_at(s@, prefix@, 0),
{
    if prefix.len() > s.len() {
        return false;
    }
    bytes_equal(vstd::slice::slice_subrange(s, 0, prefix.len()), prefix)
}

/// Tells whether `needle` occurs in `s`.
pub fn contains_bytes(s: &[u8], needle: &[u8]) -> (yes: bool)
    ensures
        yes == occurs_in(s@, needle@),
{
    if needle.len() == 0 {
        assert(s@.subrange(0, 0) =~= needle@);
        assert(occurs_at(s@, needle@, 0));
        return true;
    }
    if needle.len() > s.len() {
        return false;
    }
    let last: usize = s.len() - needle.len();
    let mut at: usize = 0;
    while at <= last
        invariant
            at <= last + 1,
            last < s.len(),
            last == s.len() - needle.len(),
            forall|k: int| 0 <= k < at ==> !occurs_at(s@, needle@, k),
        decreases last + 1 - at,
    {
        if bytes_equal(vstd::slice::slice_subrange(s, at, at + needle.len()), needle) {
            assert(occurs_at(s@, needle@, at as int));
            return true;
        }
        at += 1;
    }
    false
}

/// Tells whether the byte `b` occurs in `s`.
pub fn contains_byte(s: &[u8], b: u8) -> (yes: bool)
    ensures
        yes == s@.contains(b),
{
    let mut i: usize = 0;
    while i < s.len()
        invariant
            i <= s.len(),
            forall|k: int| 0 <= k < i ==> s@[k] != b,
        decreases s.len() - i,
    {
        if s[i] == b {
            return true;
        }
        i += 1;
    }
    false
}

} // verus!
