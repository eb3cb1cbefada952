//! Per-file metadata: line and character counts, and the order of the
//! entries of the metadata block.

use crate::cli::MetadataSort;
use crate::encode::{decode_lossy, utf8_lossy};
use crate::sort::{path_order, path_rank};
use crate::sort_laws::{lemma_order_antisymmetric, lemma_order_chain};
use crate::text::utf8;
use crate::text_detect::{bytes_are_probably_text, is_text};
use vstd::prelude::*;

verus! {

/// What reading a file gave.
pub enum FileContent {
    /// All its bytes.
    Bytes(Vec<u8>),
    /// Nothing; the text says why.
    Unreadable(String),
}

/// A matched file with its content.
pub struct LoadedFile {
    /// The path under which it was matched.
    pub path: String,
    /// Its absolute path, as the document shows it.
    pub absolute: String,
    /// What reading it gave.
    pub content: FileContent,
}

/// The metadata of one file.
#[derive(Debug)]
pub struct FileMetadata {
    pub path: String,
    pub lines: usize,
    pub characters: usize,
    pub is_binary: bool,
    pub read_error: Option<String>,
}

/// The metadata of one file, as plain values.
pub struct MetaView {
    pub path: Seq<char>,
    pub lines: nat,
    pub characters: nat,
    pub is_binary: bool,
    pub read_error: Option<Seq<char>>,
}

impl View for FileMetadata {
    type V = MetaView;

    open spec fn view(&self) -> MetaView {
        MetaView {
            path: self.path@,
            lines: self.lines as nat,
            characters: self.characters as nat,
            is_binary: self.is_binary,
            read_error: match self.read_error {
                Some(error) => Some(error@),
                None => None,
            },
        }
    }
}

/// Number of line feeds in a byte string.
pub open spec fn newlines(bytes: Seq<u8>) -> nat
    decreases bytes.len(),
{
    if bytes.len() == 0 {
        0
    } else if bytes.last() == 10 {
        newlines(bytes.drop_last()) + 1
    } else {
        newlines(bytes.drop_last())
    }
}

/// Number of lines of a byte string: its line feeds, and one more for a last
/// line that no line feed ends; none for the empty string.
pub open spec fn line_count(bytes: Seq<u8>) -> nat {
    if bytes.len() == 0 {
        0
    } else if bytes.last() == 10 {
        newlines(bytes)
    } else {
        newlines(bytes) + 1
    }
}

/// The metadata of a file whose bytes were read, given the text that the
/// bytes decode to: a text file counts the characters of that text, a binary
/// file its bytes.
pub open spec fn content_metadata(path: Seq<char>, bytes: Seq<u8>, decoded: Seq<char>) -> MetaView {
    MetaView {
        path,
        lines: line_count(bytes),
        characters: if is_text(bytes) {
            decoded.len()
        } else {
            bytes.len()
        },
        is_binary: !is_text(bytes),
        read_error: None,
    }
}

/// The metadata of a file.
pub open spec fn metadata_of(file: LoadedFile) -> MetaView {
    match file.content {
        FileContent::Bytes(bytes) => content_metadata(file.absolute@, bytes@, utf8_lossy(bytes@)),
        FileContent::Unreadable(error) => MetaView {
            path: file.absolute@,
            lines: 0,
            characters: 0,
            is_binary: false,
            read_error: Some(error@),
        },
    }
}

/// The metadata of a list of files, one for each.
pub open spec fn metadata_list(files: Seq<LoadedFile>) -> Seq<MetaView> {
    Seq::new(files.len(), |i: int| metadata_of(files[i]))
}

/// The place of one entry against another under a sort mode, as a negative
/// number, 0 or a positive number: the greater count first, then the
/// version-aware order of the paths. The natural mode ranks all alike.
pub open spec fn meta_order(by: MetadataSort, a: MetaView, b: MetaView) -> int {
    let a_count = if by == MetadataSort::Lines {
        a.lines
    } else {
        a.characters
    };
    let b_count = if by == MetadataSort::Lines {
        b.lines
    } else {
        b.characters
    };
    if by == MetadataSort::Natural {
        0
    } else if a_count > b_count {
        -1
    } else if a_count < b_count {
        1
    } else {
        path_order(utf8(a.path), utf8(b.path))
    }
}

/// `order` lists each of the indices below `len` once.
pub open spec fn permutes(order: Seq<usize>, len: nat) -> bool {
    &&& order.len() == len
    &&& forall|i: int| 0 <= i < order.len() ==> #[trigger] order[i] < len
    &&& forall|i: int, j: int| 0 <= i < j < order.len() ==> order[i] != order[j]
    &&& forall|v: usize| v < len ==> order.contains(v)
}

/// `order` arranges `entries` under the sort mode: no entry stands before
/// one that ranks before it, and entries of one rank keep their order.
pub open spec fn arranges(by: MetadataSort, entries: Seq<MetaView>, order: Seq<usize>) -> bool {
    &&& permutes(order, entries.len())
    &&& forall|i: int, j: int|
        0 <= i < j < order.len() ==> meta_order(
            by,
            entries[order[i] as int],
            entries[order[j] as int],
        ) <= 0
    &&& forall|i: int, j: int|
        0 <= i < j < order.len() && meta_order(
            by,
            entries[order[i] as int],
            entries[order[j] as int],
        ) == 0 ==> order[i] < order[j]
}

/// `sorted` holds the entries in the arrangement `order`.
pub open spec fn arranged_as(entries: Seq<MetaView>, order: Seq<usize>, sorted: Seq<MetaView>) -> bool {
    &&& sorted.len() == order.len()
    &&& forall|i: int| 0 <= i < order.len() ==> #[trigger] sorted[i] == entries[order[i] as int]
}

/// `sorted` is `entries` in the order of the sort mode.
pub open spec fn sorted_by(by: MetadataSort, entries: Seq<MetaView>, sorted: Seq<MetaView>) -> bool {
    exists|order: Seq<usize>| #[trigger]
        arranges(by, entries, order) && arranged_as(entries, order, sorted)
}

/// The arrangement of the entries under a sort mode. There is exactly one,
/// see `lemma_arrangement_unique`.
pub open spec fn arrangement(by: MetadataSort, entries: Seq<MetaView>) -> Seq<usize> {
    choose|order: Seq<usize>| arranges(by, entries, order)
}

/// The entries in the order of a sort mode.
pub open spec fn sorted_metadata(by: MetadataSort, entries: Seq<MetaView>) -> Seq<MetaView> {
    Seq::new(entries.len(), |i: int| entries[arrangement(by, entries)[i] as int])
}

/// The views of a list of entries.
pub open spec fn meta_views(entries: Seq<FileMetadata>) -> Seq<MetaView> {
    entries.map_values(|m: FileMetadata| m@)
}

/// A text file of ASCII bytes counts as many characters as it has bytes.
pub proof fn lemma_ascii_text_counts_its_bytes(file: LoadedFile)
    requires
        file.content matches FileContent::Bytes(bytes) && is_text(bytes@) && forall|i: int|
            0 <= i < bytes@.len() ==> #[trigger] bytes@[i] < 128,
    ensures
        metadata_of(file).characters == file.content->Bytes_0@.len(),
        metadata_of(file).lines == line_count(file.content->Bytes_0@),
        !metadata_of(file).is_binary,
        metadata_of(file).read_error is None,
{
    crate::encode::lemma_ascii_is_decoded_as_it_is(file.content->Bytes_0@);
}

proof fn lemma_newlines_bound(bytes: Seq<u8>)
    ensures
        newlines(bytes) <= bytes.len(),
        bytes.len() > 0 && bytes.last() != 10 ==> newlines(bytes) < bytes.len(),
    decreases bytes.len(),
{
    if bytes.len() > 0 {
        lemma_newlines_bound(bytes.drop_last());
    }
}

/// Counts the lines of a byte string.
pub fn count_lines_in_bytes(bytes: &[u8]) -> (lines: usize)
    ensures
        lines == line_count(bytes@),
{
    let n: usize = bytes.len();
    if n == 0 {
        return 0;
    }
    let mut count: usize = 0;
    let mut i: usize = 0;
    assert(bytes@.take(0) =~= Seq::empty());
    while i < n
        invariant
            i <= n,
            n == bytes.len(),
            count == newlines(bytes@.take(i as int)),
            count <= i,
        decreases n - i,
    {
        proof {
            let upto = bytes@.take(i + 1);
            assert(upto.drop_last() =~= bytes@.take(i as int));
            assert(upto.last() == bytes@[i as int]);
        }
        if bytes[i] == 10 {
            count += 1;
        }
        i += 1;
    }
    proof {
        assert(bytes@.take(n as int) =~= bytes@);
        lemma_newlines_bound(bytes@);
    }
    if bytes[n - 1] == 10 {
        count
    } else {
        count + 1
    }
}

/// The metadata of a file whose bytes were read and decode to `decoded`.
pub fn describe_content(absolute: &str, bytes: &[u8], decoded: &str) -> (meta: FileMetadata)
    ensures
        meta@ == content_metadata(absolute@, bytes@, decoded@),
{
    let lines = count_lines_in_bytes(bytes);
    if bytes_are_probably_text(bytes) {
        FileMetadata {
            path: absolute.to_owned(),
            lines,
            characters: decoded.unicode_len(),
            is_binary: false,
            read_error: None,
        }
    } else {
        FileMetadata {
            path: absolute.to_owned(),
            lines,
            characters: bytes.len(),
            is_binary: true,
            read_error: None,
        }
    }
}

/// The metadata of one file. The characters of a text file are those of the
/// text that its bytes decode to, with a replacement character for what is
/// not UTF-8.
pub fn build_file_metadata(file: &LoadedFile) -> (meta: FileMetadata)
    ensures
        meta@ == metadata_of(*file),
{
    match &file.content {
        FileContent::Bytes(bytes) => {
            let decoded = decode_lossy(bytes.as_slice());
            describe_content(file.absolute.as_str(), bytes.as_slice(), decoded.as_str())
        },
        FileContent::Unreadable(error) => FileMetadata {
            path: file.absolute.clone(),
            lines: 0,
            characters: 0,
            is_binary: false,
            read_error: Some(error.clone()),
        },
    }
}

/// The place of one entry against another under a sort mode.
pub fn meta_rank(by: MetadataSort, a: &FileMetadata, b: &FileMetadata) -> (c: i8)
    ensures
        c == meta_order(by, a@, b@),
{
    let (a_count, b_count) = match by {
        MetadataSort::Lines => (a.lines, b.lines),
        MetadataSort::Characters => (a.characters, b.characters),
        MetadataSort::Natural => {
            return 0;
        },
    };
    if a_count > b_count {
        -1
    } else if a_count < b_count {
        1
    } else {
        path_rank(a.path.as_str().as_bytes(), b.path.as_str().as_bytes())
    }
}

proof fn lemma_meta_chain(by: MetadataSort, a: MetaView, b: MetaView, c: MetaView)
    requires
        meta_order(by, a, b) <= 0,
        meta_order(by, b, c) <= 0,
    ensures
        meta_order(by, a, c) <= 0,
        meta_order(by, a, b) < 0 || meta_order(by, b, c) < 0 ==> meta_order(by, a, c) < 0,
{
    if by != MetadataSort::Natural {
        let (x, y, z) = if by == MetadataSort::Lines {
            (a.lines, b.lines, c.lines)
        } else {
            (a.characters, b.characters, c.characters)
        };
        if x == y && y == z {
            lemma_order_chain(utf8(a.path), utf8(b.path), utf8(c.path));
        }
    }
}

proof fn lemma_meta_antisymmetric(by: MetadataSort, a: MetaView, b: MetaView)
    ensures
        meta_order(by, a, b) == -meta_order(by, b, a),
{
    lemma_order_antisymmetric(utf8(a.path), utf8(b.path));
}

/// The entries have one arrangement under a sort mode and no other.
pub proof fn lemma_arrangement_unique(
    by: MetadataSort,
    entries: Seq<MetaView>,
    a: Seq<usize>,
    b: Seq<usize>,
)
    requires
        arranges(by, entries, a),
        arranges(by, entries, b),
    ensures
        a == b,
{
    let before = |i: usize, j: usize|
        meta_order(by, entries[i as int], entries[j as int]) < 0 || (meta_order(
            by,
            entries[i as int],
            entries[j as int],
        ) == 0 && i < j);
    assert forall|x: usize, y: usize| !(#[trigger] before(x, y) && before(y, x)) by {
        lemma_meta_antisymmetric(by, entries[x as int], entries[y as int]);
    }
    assert forall|x: usize| a.contains(x) <==> b.contains(x) by {
        if a.contains(x) {
            let i = choose|i: int| 0 <= i < a.len() && a[i] == x;
            assert(a[i] < entries.len());
        }
        if b.contains(x) {
            let i = choose|i: int| 0 <= i < b.len() && b[i] == x;
            assert(b[i] < entries.len());
        }
    }
    assert(crate::order::rising(before, a));
    assert(crate::order::rising(before, b));
    crate::order::lemma_rising_unique(before, a, b);
}

/// Entries that stand in an arrangement are the sorted entries.
pub proof fn lemma_is_sorted_metadata(
    by: MetadataSort,
    entries: Seq<MetaView>,
    order: Seq<usize>,
    sorted: Seq<MetaView>,
)
    requires
        arranges(by, entries, order),
        arranged_as(entries, order, sorted),
    ensures
        sorted == sorted_metadata(by, entries),
{
    lemma_arrangement_unique(by, entries, order, arrangement(by, entries));
    assert(sorted =~= sorted_metadata(by, entries));
}

/// An owned copy of an entry.
pub fn copy_metadata(entry: &FileMetadata) -> (copy: FileMetadata)
    ensures
        copy@ == entry@,
{
    FileMetadata {
        path: entry.path.clone(),
        lines: entry.lines,
        characters: entry.characters,
        is_binary: entry.is_binary,
        read_error: match &entry.read_error {
            Some(error) => Some(error.clone()),
            None => None,
        },
    }
}

/// Arranges the entries under a sort mode: the indices of the entries, in
/// the order in which they are to stand.
pub fn arrange(by: MetadataSort, entries: &Vec<FileMetadata>) -> (order: Vec<usize>)
    ensures
        arranges(by, meta_views(entries@), order@),
{
    let ghost views = meta_views(entries@);
    let mut order: Vec<usize> = Vec::new();
    let mut next: usize = 0;
    while next < entries.len()
        invariant
            next <= entries.len(),
            views == meta_views(entries@),
            order@.len() == next,
            forall|i: int| 0 <= i < order@.len() ==> #[trigger] order@[i] < next,
            forall|i: int, j: int| 0 <= i < j < order@.len() ==> order@[i] != order@[j],
            forall|v: usize| v < next ==> order@.contains(v),
            forall|i: int, j: int|
                0 <= i < j < order@.len() ==> meta_order(
                    by,
                    views[order@[i] as int],
                    views[order@[j] as int],
                ) <= 0,
            forall|i: int, j: int|
                0 <= i < j < order@.len() && meta_order(
                    by,
                    views[order@[i] as int],
                    views[order@[j] as int],
                ) == 0 ==> order@[i] < order@[j],
        decreases entries.len() - next,
    {
        let ghost before = order@;
        let ghost entry = views[next as int];
        let mut at: usize = order.len();
        while at > 0 && meta_rank(by, &entries[order[at - 1]], &entries[next]) > 0
            invariant
                at <= order@.len(),
                order@ == before,
                next < entries.len(),
                views == meta_views(entries@),
                entry == views[next as int],
                forall|i: int| 0 <= i < order@.len() ==> #[trigger] order@[i] < next,
                forall|k: int|
                    at <= k < order@.len() ==> meta_order(by, views[#[trigger] order@[k] as int], entry)
                        > 0,
            decreases at,
        {
            at -= 1;
        }
        order.insert(at, next);
        proof {
            let after = order@;
            assert(after =~= before.insert(at as int, next));
            assert forall|k: int| 0 <= k < at implies meta_order(
                by,
                views[#[trigger] before[k] as int],
                entry,
            ) <= 0 by {
                if k < at - 1 {
                    assert(meta_order(by, views[before[k] as int], views[before[at - 1] as int])
                        <= 0);
                    lemma_meta_chain(
                        by,
                        views[before[k] as int],
                        views[before[at - 1] as int],
                        entry,
                    );
                }
            }
            assert forall|i: int, j: int| 0 <= i < j < after.len() implies meta_order(
                by,
                views[after[i] as int],
                views[after[j] as int],
            ) <= 0 by {
                let a = if i < at { i } else { i - 1 };
                let b = if j < at { j } else { j - 1 };
                if j == at {
                    assert(after[i] == before[i]);
                } else if i == at {
                    assert(after[j] == before[b]);
                    lemma_meta_antisymmetric(by, views[before[b] as int], entry);
                } else {
                    assert(after[i] == before[a] && after[j] == before[b]);
                }
            }
            assert forall|i: int, j: int|
                0 <= i < j < after.len() && meta_order(
                    by,
                    views[after[i] as int],
                    views[after[j] as int],
                ) == 0 implies after[i] < after[j] by {
                let a = if i < at { i } else { i - 1 };
                let b = if j < at { j } else { j - 1 };
                if j == at {
                    assert(after[i] == before[i]);
                } else if i == at {
                    assert(after[j] == before[b]);
                    lemma_meta_antisymmetric(by, views[before[b] as int], entry);
                } else {
                    assert(after[i] == before[a] && after[j] == before[b]);
                }
            }
            assert forall|i: int, j: int| 0 <= i < j < after.len() implies after[i] != after[j] by {
                let a = if i < at { i } else { i - 1 };
                let b = if j < at { j } else { j - 1 };
                if i != at && j != at {
                    assert(after[i] == before[a] && after[j] == before[b]);
                } else if i == at {
                    assert(after[j] == before[b]);
                } else {
                    assert(after[i] == before[a]);
                }
            }
            assert forall|i: int| 0 <= i < after.len() implies #[trigger] after[i] < next + 1 by {
                let a = if i < at { i } else { i - 1 };
                if i != at {
                    assert(after[i] == before[a]);
                }
            }
            assert forall|v: usize| v < next + 1 implies after.contains(v) by {
                if v < next {
                    assert(before.contains(v));
                    let q = choose|q: int| 0 <= q < before.len() && before[q] == v;
                    let r = if q < at { q } else { q + 1 };
                    assert(after[r] == v);
                } else {
                    assert(after[at as int] == v);
                }
            }
        }
        next += 1;
    }
    order
}

/// The metadata of the matched files in the order of the sort mode: most
/// lines first, most characters first, or as the files came. Entries with
/// the same count stand in the version-aware order of their paths, and
/// entries that still rank alike keep the order of the files.
pub fn collect_file_metadata(files: &Vec<LoadedFile>, sort_by: MetadataSort) -> (metadata: Vec<
    FileMetadata,
>)
    ensures
        sorted_by(sort_by, metadata_list(files@), meta_views(metadata@)),
        meta_views(metadata@) == sorted_metadata(sort_by, metadata_list(files@)),
{
    let mut entries: Vec<FileMetadata> = Vec::new();
    let mut i: usize = 0;
    while i < files.len()
        invariant
            i <= files.len(),
            entries@.len() == i,
            forall|k: int| 0 <= k < i ==> (#[trigger] entries@[k])@ == metadata_of(files@[k]),
        decreases files.len() - i,
    {
        entries.push(build_file_metadata(&files[i]));
        i += 1;
    }
    assert(meta_views(entries@) =~= metadata_list(files@));
    let order = arrange(sort_by, &entries);
    let mut metadata: Vec<FileMetadata> = Vec::new();
    let mut j: usize = 0;
    while j < order.len()
        invariant
            j <= order.len(),
            metadata@.len() == j,
            arranges(sort_by, meta_views(entries@), order@),
            forall|k: int|
                0 <= k < j ==> (#[trigger] metadata@[k])@ == entries@[order@[k] as int]@,
        decreases order.len() - j,
    {
        metadata.push(copy_metadata(&entries[order[j]]));
        j += 1;
    }
    assert(arranged_as(meta_views(entries@), order@, meta_views(metadata@)));
    proof {
        lemma_is_sorted_metadata(
            sort_by,
            meta_views(entries@),
            order@,
            meta_views(metadata@),
        );
    }
    metadata
}

} // verus!
