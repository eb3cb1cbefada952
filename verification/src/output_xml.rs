//! The structured form of the document: an XML-like container with literal
//! blocks for the tree and for the content of each file.

use crate::config::RunConfig;
use crate::encode::{
    base64_standard, cdata_escaped, decimal, decode_lossy, encode_base64, lemma_step, push_bytes,
    push_decimal,
    push_str, push_xml_escaped, sanitize_xml_text, sanitized, text, utf8_lossy, write_cdata_body,
    xml_escaped,
};
use crate::metadata::{meta_views, FileContent, FileMetadata, LoadedFile, MetaView};
use crate::order::{order_paths, ordered_set, picked, views};
use crate::paths::{base_name, bytes_equal, file_name, parent_dir, parent_of, starts_with};
use crate::text::{utf8, view_of};
use crate::text_detect::{bytes_are_probably_text, is_text};
use vstd::prelude::*;

verus! {

/// The content of a file as the document carries it.
pub enum Embedded {
    /// Text, to be written as it is.
    Text(Vec<u8>),
    /// The base64 encoding of binary content.
    Base64(Vec<u8>),
}

/// The content of a file as the document carries it, as plain values.
pub enum EmbeddedView {
    Text(Seq<u8>),
    Base64(Seq<u8>),
}

impl View for Embedded {
    type V = EmbeddedView;

    open spec fn view(&self) -> EmbeddedView {
        match *self {
            Embedded::Text(bytes) => EmbeddedView::Text(bytes@),
            Embedded::Base64(bytes) => EmbeddedView::Base64(bytes@),
        }
    }
}

impl EmbeddedView {
    /// The bytes that are written for the content.
    pub open spec fn bytes(self) -> Seq<u8> {
        match self {
            EmbeddedView::Text(bytes) => bytes,
            EmbeddedView::Base64(bytes) => bytes,
        }
    }
}

/// The line that says that nothing matched, as an element.
pub open spec fn no_match_message() -> Seq<u8> {
    text("    <message>No files matched the criteria.</message>\n")
}

/// The sentence that stands in the document in place of the content of a
/// file that could not be read. It names the file by the path under which
/// it was matched.
pub open spec fn read_error_text(path: Seq<char>) -> Seq<u8> {
    text("Error reading file content for ") + utf8(path)
}

/// How the structured form carries a file: binary content in base64 where
/// binary files are wanted; other content decoded, with a replacement
/// character for what the markup may not carry; and a sentence in place of
/// the content of a file that could not be read.
pub open spec fn xml_embedded(keep_binary: bool, file: LoadedFile) -> EmbeddedView {
    match file.content {
        FileContent::Bytes(bytes) => if keep_binary && !is_text(bytes@) {
            EmbeddedView::Base64(base64_standard(bytes@))
        } else {
            EmbeddedView::Text(utf8(sanitized(utf8_lossy(bytes@))))
        },
        FileContent::Unreadable(error) => EmbeddedView::Text(read_error_text(file.path@)),
    }
}

/// The entry of one file in the contents block.
pub open spec fn xml_file_entry(absolute: Seq<char>, body: EmbeddedView) -> Seq<u8> {
    text("    <file>\n") + text("      <path>") + xml_escaped(utf8(absolute)) + text("</path>\n")
        + (if body is Base64 {
        text("      <content encoding=\"base64\"><![CDATA[\n")
    } else {
        text("      <content><![CDATA[\n")
    }) + cdata_escaped(body.bytes()) + text("]]></content>\n") + text("    </file>\n")
}

/// The entries of the files in the contents block.
pub open spec fn xml_file_entries(keep_binary: bool, files: Seq<LoadedFile>) -> Seq<u8>
    decreases files.len(),
{
    if files.len() == 0 {
        Seq::empty()
    } else {
        xml_file_entries(keep_binary, files.drop_last()) + xml_file_entry(
            files.last().absolute@,
            xml_embedded(keep_binary, files.last()),
        )
    }
}

/// The contents block: the number of files, and their entries or the line
/// that says that nothing matched.
pub open spec fn xml_contents(keep_binary: bool, files: Seq<LoadedFile>) -> Seq<u8> {
    text("  <fileContents count=\"") + decimal(files.len()) + text("\">\n") + (if files.len() == 0 {
        no_match_message()
    } else {
        xml_file_entries(keep_binary, files)
    }) + text("  </fileContents>\n")
}

/// The tree block: the tree as it was given, in a literal block.
pub open spec fn xml_tree(tree: Seq<char>) -> Seq<u8> {
    text("  <directoryTree context=\".\">\n") + text("    <representation><![CDATA[\n")
        + cdata_escaped(utf8(tree)) + text("]]></representation>\n") + text(
        "  </directoryTree>\n",
    )
}

/// What the metadata block says of one file: why it could not be read, or
/// its two counts.
pub open spec fn xml_metadata_counts(entry: MetaView) -> Seq<u8> {
    match entry.read_error {
        Some(error) => text("      <error>") + xml_escaped(utf8(error)) + text("</error>\n"),
        None => text("      <lines>") + decimal(entry.lines) + text("</lines>\n") + text(
            "      <characters>",
        ) + decimal(entry.characters) + text("</characters>\n"),
    }
}

/// The entry of one file in the metadata block.
pub open spec fn xml_metadata_entry(entry: MetaView) -> Seq<u8> {
    text("    <file binary=\"") + (if entry.is_binary {
        text("true")
    } else {
        text("false")
    }) + text("\">\n") + text("      <path>") + xml_escaped(utf8(entry.path)) + text("</path>\n")
        + xml_metadata_counts(entry) + text("    </file>\n")
}

/// The entries of the metadata block.
pub open spec fn xml_metadata_entries(metadata: Seq<MetaView>) -> Seq<u8>
    decreases metadata.len(),
{
    if metadata.len() == 0 {
        Seq::empty()
    } else {
        xml_metadata_entries(metadata.drop_last()) + xml_metadata_entry(metadata.last())
    }
}

/// The metadata block.
pub open spec fn xml_metadata(metadata: Seq<MetaView>) -> Seq<u8> {
    text("  <fileMetadata count=\"") + decimal(metadata.len()) + text("\">\n") + (if metadata.len()
        == 0 {
        no_match_message()
    } else {
        xml_metadata_entries(metadata)
    }) + text("  </fileMetadata>\n")
}

/// The parent directories of the files that have a name, as they come.
pub open spec fn parents(files: Seq<LoadedFile>) -> Seq<Seq<u8>>
    decreases files.len(),
{
    if files.len() == 0 {
        Seq::empty()
    } else if base_name(utf8(files.last().absolute@)).len() > 0 {
        parents(files.drop_last()).push(parent_dir(utf8(files.last().absolute@)))
    } else {
        parents(files.drop_last())
    }
}

/// A name between double quotes.
pub open spec fn quoted(name: Seq<u8>) -> Seq<u8> {
    seq![34u8] + name + seq![34u8]
}

/// The quoted names of the files that lie in `dir`, in the order of the
/// files, with a comma and a space between them.
pub open spec fn names_in(files: Seq<LoadedFile>, dir: Seq<u8>) -> Seq<u8>
    decreases files.len(),
{
    if files.len() == 0 {
        Seq::empty()
    } else {
        let path = utf8(files.last().absolute@);
        let earlier = names_in(files.drop_last(), dir);
        if base_name(path).len() > 0 && parent_dir(path) == dir {
            if earlier.len() == 0 {
                quoted(base_name(path))
            } else {
                earlier + text(", ") + quoted(base_name(path))
            }
        } else {
            earlier
        }
    }
}

/// A directory as the listing shows it: a dot for the working directory,
/// the path below the working directory for what lies in it, and the whole
/// path for everything else.
pub open spec fn relative_dir(dir: Seq<u8>, cwd: Seq<u8>) -> Seq<u8> {
    if dir == cwd {
        text(".")
    } else if cwd.len() > 0 && cwd.last() == 47 && dir.len() >= cwd.len() && dir.take(
        cwd.len() as int,
    ) == cwd {
        dir.skip(cwd.len() as int)
    } else if cwd.len() > 0 && dir.len() > cwd.len() && dir.take(cwd.len() as int) == cwd
        && dir[cwd.len() as int] == 47 {
        dir.skip(cwd.len() as int + 1)
    } else {
        dir
    }
}

/// The entry of one directory in the listing.
pub open spec fn xml_dir_entry(files: Seq<LoadedFile>, cwd: Seq<u8>, dir: Seq<u8>) -> Seq<u8> {
    text("    <dirEntry>\"") + xml_escaped(relative_dir(dir, cwd)) + text("\": [") + xml_escaped(
        names_in(files, dir),
    ) + text("]</dirEntry>\n")
}

/// The entries of the directories `dirs` in the listing.
pub open spec fn xml_dir_entries(files: Seq<LoadedFile>, cwd: Seq<u8>, dirs: Seq<Seq<u8>>) -> Seq<
    u8,
>
    decreases dirs.len(),
{
    if dirs.len() == 0 {
        Seq::empty()
    } else {
        xml_dir_entries(files, cwd, dirs.drop_last()) + xml_dir_entry(files, cwd, dirs.last())
    }
}

/// The listing of the matched files by directory: the directories in the
/// version-aware order, each with the names of its files in the order of
/// the files.
pub open spec fn xml_dir_list(files: Seq<LoadedFile>, cwd: Seq<char>) -> Seq<u8> {
    text("  <matchedFilesDirStructureList>\n") + xml_dir_entries(
        files,
        utf8(cwd),
        ordered_set(parents(files)),
    ) + text("  </matchedFilesDirStructureList>\n")
}

/// The structured form of the document, with the metadata block as given.
pub open spec fn xml_output(
    config: RunConfig,
    files: Seq<LoadedFile>,
    tree: Option<Seq<char>>,
    metadata: Option<Seq<MetaView>>,
    cwd: Seq<char>,
) -> Seq<u8> {
    text("<?xml version=\"1.0\" encoding=\"UTF-8\"?>\n") + text("<concatenation>\n") + (match tree {
        Some(tree) => xml_tree(tree),
        None => Seq::empty(),
    }) + (if config.show_dir_list {
        xml_dir_list(files, cwd)
    } else {
        Seq::empty()
    }) + (match metadata {
        Some(metadata) => xml_metadata(metadata),
        None => Seq::empty(),
    }) + xml_contents(config.include_binary, files) + text("</concatenation>\n")
}

/// The metadata block of an optional list of entries.
pub open spec fn views_of(metadata: Option<&Vec<FileMetadata>>) -> Option<Seq<MetaView>> {
    match metadata {
        Some(metadata) => Some(meta_views(metadata@)),
        None => None,
    }
}

/// The sentence that stands in place of the content of a file that could
/// not be read.
pub fn read_error_body(path: &str) -> (body: Vec<u8>)
    ensures
        body@ == read_error_text(path@),
{
    let mut body: Vec<u8> = Vec::new();
    push_str(&mut body, "Error reading file content for ");
    push_str(&mut body, path);
    assert(body@ =~= read_error_text(path@));
    body
}

/// Prepares the content of a file for the structured form.
pub fn embed_for_xml(keep_binary: bool, file: &LoadedFile) -> (body: Embedded)
    ensures
        body@ == xml_embedded(keep_binary, *file),
{
    match &file.content {
        FileContent::Bytes(bytes) => {
            if keep_binary && !bytes_are_probably_text(bytes.as_slice()) {
                Embedded::Base64(encode_base64(bytes.as_slice()))
            } else {
                let decoded = decode_lossy(bytes.as_slice());
                let clean = sanitize_xml_text(decoded.as_str());
                let mut body: Vec<u8> = Vec::new();
                push_str(&mut body, clean.as_str());
                assert(body@ =~= utf8(clean@));
                Embedded::Text(body)
            }
        },
        FileContent::Unreadable(_) => Embedded::Text(read_error_body(file.path.as_str())),
    }
}

/// Writes the entry of one file of the contents block.
pub fn write_file_xml(out: &mut Vec<u8>, absolute: &str, body: &Embedded)
    ensures
        final(out)@ == old(out)@ + xml_file_entry(absolute@, body@),
{
    let ghost base = out@;
    push_str(out, "    <file>\n");
    let ghost mut done = text("    <file>\n");
    push_str(out, "      <path>");
    proof {
        done = lemma_step(base, done, text("      <path>"));
    }
    push_xml_escaped(out, absolute.as_bytes());
    proof {
        done = lemma_step(base, done, xml_escaped(utf8(absolute@)));
    }
    push_str(out, "</path>\n");
    proof {
        done = lemma_step(base, done, text("</path>\n"));
    }
    match body {
        Embedded::Base64(encoded) => {
            push_str(out, "      <content encoding=\"base64\"><![CDATA[\n");
            proof {
                done = lemma_step(
                    base,
                    done,
                    text("      <content encoding=\"base64\"><![CDATA[\n"),
                );
            }
            write_cdata_body(out, encoded.as_slice());
            proof {
                done = lemma_step(base, done, cdata_escaped(encoded@));
            }
        },
        Embedded::Text(bytes) => {
            push_str(out, "      <content><![CDATA[\n");
            proof {
                done = lemma_step(base, done, text("      <content><![CDATA[\n"));
            }
            write_cdata_body(out, bytes.as_slice());
            proof {
                done = lemma_step(base, done, cdata_escaped(bytes@));
            }
        },
    }
    push_str(out, "]]></content>\n");
    proof {
        done = lemma_step(base, done, text("]]></content>\n"));
    }
    push_str(out, "    </file>\n");
    proof {
        done = lemma_step(base, done, text("    </file>\n"));
    }
}

/// Writes the entries of the files of the contents block.
pub fn write_file_entries_xml(out: &mut Vec<u8>, keep_binary: bool, files: &Vec<LoadedFile>)
    ensures
        final(out)@ == old(out)@ + xml_file_entries(keep_binary, files@),
{
    let ghost base = out@;
    let mut i: usize = 0;
    assert(files@.take(0) =~= Seq::empty());
    assert(out@ =~= base + Seq::empty());
    while i < files.len()
        invariant
            i <= files.len(),
            out@ == base + xml_file_entries(keep_binary, files@.take(i as int)),
        decreases files.len() - i,
    {
        let file = &files[i];
        let body = embed_for_xml(keep_binary, file);
        write_file_xml(out, file.absolute.as_str(), &body);
        proof {
            let upto = files@.take(i + 1);
            assert(upto.drop_last() =~= files@.take(i as int));
            assert(upto.last() == *file);
            let now = lemma_step(
                base,
                xml_file_entries(keep_binary, files@.take(i as int)),
                xml_file_entry(file.absolute@, xml_embedded(keep_binary, *file)),
            );
        }
        i += 1;
    }
    assert(files@.take(i as int) =~= files@);
}

/// Writes the contents block.
pub fn write_contents_xml(out: &mut Vec<u8>, keep_binary: bool, files: &Vec<LoadedFile>)
    ensures
        final(out)@ == old(out)@ + xml_contents(keep_binary, files@),
{
    let ghost base = out@;
    push_str(out, "  <fileContents count=\"");
    let ghost mut done = text("  <fileContents count=\"");
    push_decimal(out, files.len());
    proof {
        done = lemma_step(base, done, decimal(files@.len()));
    }
    push_str(out, "\">\n");
    proof {
        done = lemma_step(base, done, text("\">\n"));
    }
    if files.len() == 0 {
        push_str(out, "    <message>No files matched the criteria.</message>\n");
        proof {
            done = lemma_step(base, done, no_match_message());
        }
    } else {
        write_file_entries_xml(out, keep_binary, files);
        proof {
            done = lemma_step(base, done, xml_file_entries(keep_binary, files@));
        }
    }
    push_str(out, "  </fileContents>\n");
    proof {
        done = lemma_step(base, done, text("  </fileContents>\n"));
    }
}

/// Writes the tree block.
pub fn write_tree_xml(out: &mut Vec<u8>, tree: &str)
    ensures
        final(out)@ == old(out)@ + xml_tree(tree@),
{
    let ghost base = out@;
    push_str(out, "  <directoryTree context=\".\">\n");
    let ghost mut done = text("  <directoryTree context=\".\">\n");
    push_str(out, "    <representation><![CDATA[\n");
    proof {
        done = lemma_step(base, done, text("    <representation><![CDATA[\n"));
    }
    write_cdata_body(out, tree.as_bytes());
    proof {
        done = lemma_step(base, done, cdata_escaped(utf8(tree@)));
    }
    push_str(out, "]]></representation>\n");
    proof {
        done = lemma_step(base, done, text("]]></representation>\n"));
    }
    push_str(out, "  </directoryTree>\n");
    proof {
        done = lemma_step(base, done, text("  </directoryTree>\n"));
    }
}

/// Writes what the metadata block says of one file.
pub fn write_metadata_counts_xml(out: &mut Vec<u8>, entry: &FileMetadata)
    ensures
        final(out)@ == old(out)@ + xml_metadata_counts(entry@),
{
    let ghost base = out@;
    match &entry.read_error {
        Some(error) => {
            push_str(out, "      <error>");
            let ghost mut done = text("      <error>");
            push_xml_escaped(out, error.as_str().as_bytes());
            proof {
                done = lemma_step(base, done, xml_escaped(utf8(error@)));
            }
            push_str(out, "</error>\n");
            proof {
                done = lemma_step(base, done, text("</error>\n"));
            }
        },
        None => {
            push_str(out, "      <lines>");
            let ghost mut done = text("      <lines>");
            push_decimal(out, entry.lines);
            proof {
                done = lemma_step(base, done, decimal(entry.lines as nat));
            }
            push_str(out, "</lines>\n");
            proof {
                done = lemma_step(base, done, text("</lines>\n"));
            }
            push_str(out, "      <characters>");
            proof {
                done = lemma_step(base, done, text("      <characters>"));
            }
            push_decimal(out, entry.characters);
            proof {
                done = lemma_step(base, done, decimal(entry.characters as nat));
            }
            push_str(out, "</characters>\n");
            proof {
                done = lemma_step(base, done, text("</characters>\n"));
            }
        },
    }
}

/// Writes the entry of one file of the metadata block.
pub fn write_metadata_entry_xml(out: &mut Vec<u8>, entry: &FileMetadata)
    ensures
        final(out)@ == old(out)@ + xml_metadata_entry(entry@),
{
    let ghost base = out@;
    push_str(out, "    <file binary=\"");
    let ghost mut done = text("    <file binary=\"");
    if entry.is_binary {
        push_str(out, "true");
    } else {
        push_str(out, "false");
    }
    proof {
        done = lemma_step(base, done, if entry.is_binary {
            text("true")
        } else {
            text("false")
        });
    }
    push_str(out, "\">\n");
    proof {
        done = lemma_step(base, done, text("\">\n"));
    }
    push_str(out, "      <path>");
    proof {
        done = lemma_step(base, done, text("      <path>"));
    }
    push_xml_escaped(out, entry.path.as_str().as_bytes());
    proof {
        done = lemma_step(base, done, xml_escaped(utf8(entry.path@)));
    }
    push_str(out, "</path>\n");
    proof {
        done = lemma_step(base, done, text("</path>\n"));
    }
    write_metadata_counts_xml(out, entry);
    proof {
        done = lemma_step(base, done, xml_metadata_counts(entry@));
    }
    push_str(out, "    </file>\n");
    proof {
        done = lemma_step(base, done, text("    </file>\n"));
    }
}

/// Writes the entries of the metadata block.
pub fn write_metadata_entries_xml(out: &mut Vec<u8>, metadata: &Vec<FileMetadata>)
    ensures
        final(out)@ == old(out)@ + xml_metadata_entries(meta_views(metadata@)),
{
    let ghost entries = meta_views(metadata@);
    let ghost base = out@;
    let mut i: usize = 0;
    assert(entries.take(0) =~= Seq::empty());
    assert(out@ =~= base + Seq::empty());
    while i < metadata.len()
        invariant
            i <= metadata.len(),
            entries == meta_views(metadata@),
            out@ == base + xml_metadata_entries(entries.take(i as int)),
        decreases metadata.len() - i,
    {
        write_metadata_entry_xml(out, &metadata[i]);
        proof {
            let upto = entries.take(i + 1);
            assert(upto.drop_last() =~= entries.take(i as int));
            assert(upto.last() == metadata@[i as int]@);
            let now = lemma_step(
                base,
                xml_metadata_entries(entries.take(i as int)),
                xml_metadata_entry(metadata@[i as int]@),
            );
        }
        i += 1;
    }
    assert(entries.take(i as int) =~= entries);
}

/// Writes the metadata block.
pub fn write_file_metadata_xml(out: &mut Vec<u8>, metadata: &Vec<FileMetadata>)
    ensures
        final(out)@ == old(out)@ + xml_metadata(meta_views(metadata@)),
{
    let ghost entries = meta_views(metadata@);
    let ghost base = out@;
    push_str(out, "  <fileMetadata count=\"");
    let ghost mut done = text("  <fileMetadata count=\"");
    push_decimal(out, metadata.len());
    proof {
        done = lemma_step(base, done, decimal(entries.len()));
    }
    push_str(out, "\">\n");
    proof {
        done = lemma_step(base, done, text("\">\n"));
    }
    if metadata.len() == 0 {
        push_str(out, "    <message>No files matched the criteria.</message>\n");
        proof {
            done = lemma_step(base, done, no_match_message());
        }
    } else {
        write_metadata_entries_xml(out, metadata);
        proof {
            done = lemma_step(base, done, xml_metadata_entries(entries));
        }
    }
    push_str(out, "  </fileMetadata>\n");
    proof {
        done = lemma_step(base, done, text("  </fileMetadata>\n"));
    }
}

/// Writes a directory as the listing shows it.
pub fn push_relative_dir(out: &mut Vec<u8>, dir: &[u8], cwd: &[u8])
    ensures
        final(out)@ == old(out)@ + xml_escaped(relative_dir(dir@, cwd@)),
{
    let n: usize = cwd.len();
    if bytes_equal(dir, cwd) {
        let mut dot: Vec<u8> = Vec::new();
        push_str(&mut dot, ".");
        assert(dot@ =~= text("."));
        push_xml_escaped(out, dot.as_slice());
    } else if n > 0 && cwd[n - 1] == 47 && starts_with(dir, cwd) {
        assert(dir@.take(n as int) =~= dir@.subrange(0, n as int));
        let rest = vstd::slice::slice_subrange(dir, n, dir.len());
        assert(rest@ =~= dir@.skip(n as int));
        push_xml_escaped(out, rest);
    } else if n > 0 && dir.len() > n && starts_with(dir, cwd) && dir[n] == 47 {
        assert(dir@.take(n as int) =~= dir@.subrange(0, n as int));
        let rest = vstd::slice::slice_subrange(dir, n + 1, dir.len());
        assert(rest@ =~= dir@.skip(n + 1));
        push_xml_escaped(out, rest);
    } else {
        proof {
            if dir@.len() >= n {
                assert(dir@.take(n as int) =~= dir@.subrange(0, n as int));
            }
        }
        push_xml_escaped(out, dir);
    }
}

/// The quoted names of the files that lie in `dir`.
pub fn collect_names(files: &Vec<LoadedFile>, dir: &[u8]) -> (names: Vec<u8>)
    ensures
        names@ == names_in(files@, dir@),
{
    let mut names: Vec<u8> = Vec::new();
    let mut i: usize = 0;
    assert(files@.take(0) =~= Seq::empty());
    while i < files.len()
        invariant
            i <= files.len(),
            names@ == names_in(files@.take(i as int), dir@),
        decreases files.len() - i,
    {
        let ghost before = names@;
        let path = files[i].absolute.as_str().as_bytes();
        let name = file_name(path);
        proof {
            let upto = files@.take(i + 1);
            assert(upto.drop_last() =~= files@.take(i as int));
            assert(upto.last() == files@[i as int]);
        }
        if name.len() > 0 && bytes_equal(parent_of(path), dir) {
            if names.len() > 0 {
                push_str(&mut names, ", ");
            }
            names.push(34);
            push_bytes(&mut names, name);
            names.push(34);
            proof {
                if before.len() == 0 {
                    assert(names@ =~= quoted(name@));
                } else {
                    assert(names@ =~= before + text(", ") + quoted(name@));
                }
            }
        }
        i += 1;
    }
    assert(files@.take(i as int) =~= files@);
    names
}

/// The parent directories of the files that have a name, as parts of their
/// paths.
pub fn parent_dirs(files: &Vec<LoadedFile>) -> (dirs: Vec<&[u8]>)
    ensures
        views(dirs@) == parents(files@),
{
    let mut dirs: Vec<&[u8]> = Vec::new();
    let mut i: usize = 0;
    assert(files@.take(0) =~= Seq::empty());
    assert(views(dirs@) =~= Seq::empty());
    while i < files.len()
        invariant
            i <= files.len(),
            views(dirs@) == parents(files@.take(i as int)),
        decreases files.len() - i,
    {
        let ghost before = views(dirs@);
        let path = files[i].absolute.as_str().as_bytes();
        proof {
            let upto = files@.take(i + 1);
            assert(upto.drop_last() =~= files@.take(i as int));
            assert(upto.last() == files@[i as int]);
        }
        if file_name(path).len() > 0 {
            dirs.push(parent_of(path));
            assert(views(dirs@) =~= before.push(parent_dir(path@)));
        }
        i += 1;
    }
    assert(files@.take(i as int) =~= files@);
    dirs
}

/// Writes the entry of one directory of the listing.
pub fn write_dir_entry_xml(out: &mut Vec<u8>, files: &Vec<LoadedFile>, cwd: &[u8], dir: &[u8])
    ensures
        final(out)@ == old(out)@ + xml_dir_entry(files@, cwd@, dir@),
{
    let ghost base = out@;
    push_str(out, "    <dirEntry>\"");
    let ghost mut done = text("    <dirEntry>\"");
    push_relative_dir(out, dir, cwd);
    proof {
        done = lemma_step(base, done, xml_escaped(relative_dir(dir@, cwd@)));
    }
    push_str(out, "\": [");
    proof {
        done = lemma_step(base, done, text("\": ["));
    }
    let names = collect_names(files, dir);
    push_xml_escaped(out, names.as_slice());
    proof {
        done = lemma_step(base, done, xml_escaped(names_in(files@, dir@)));
    }
    push_str(out, "]</dirEntry>\n");
    proof {
        done = lemma_step(base, done, text("]</dirEntry>\n"));
    }
}

/// Writes the listing of the matched files by directory. `cwd` is the
/// working directory, below which directories are shown by their relative
/// path.
pub fn write_matched_dir_list_xml(out: &mut Vec<u8>, files: &Vec<LoadedFile>, cwd: &str)
    ensures
        final(out)@ == old(out)@ + xml_dir_list(files@, cwd@),
{
    let keys = parent_dirs(files);
    let order = order_paths(&keys);
    let ghost dirs = picked(views(keys@), order@);
    let ghost base = out@;
    push_str(out, "  <matchedFilesDirStructureList>\n");
    let ghost mut done = text("  <matchedFilesDirStructureList>\n");
    let ghost head = out@;
    let mut j: usize = 0;
    assert(dirs.take(0) =~= Seq::empty());
    assert(out@ =~= head + Seq::empty());
    while j < order.len()
        invariant
            j <= order.len(),
            crate::order::in_range(order@, keys@.len()),
            dirs == picked(views(keys@), order@),
            out@ == head + xml_dir_entries(files@, utf8(cwd@), dirs.take(j as int)),
        decreases order.len() - j,
    {
        let dir: &[u8] = keys[order[j]];
        write_dir_entry_xml(out, files, cwd.as_bytes(), dir);
        proof {
            let upto = dirs.take(j + 1);
            assert(upto.drop_last() =~= dirs.take(j as int));
            assert(upto.last() == dir@);
            let now = lemma_step(
                head,
                xml_dir_entries(files@, utf8(cwd@), dirs.take(j as int)),
                xml_dir_entry(files@, utf8(cwd@), dir@),
            );
        }
        j += 1;
    }
    proof {
        assert(dirs.take(j as int) =~= dirs);
        done = lemma_step(base, done, xml_dir_entries(files@, utf8(cwd@), dirs));
    }
    push_str(out, "  </matchedFilesDirStructureList>\n");
    proof {
        done = lemma_step(base, done, text("  </matchedFilesDirStructureList>\n"));
    }
}

/// Writes the structured form of the document: the tree block if a tree is
/// given, the listing by directory if it is wanted, the metadata block if
/// metadata is given, and the contents block.
pub fn write_xml_output(
    config: &RunConfig,
    files: &Vec<LoadedFile>,
    tree: Option<&str>,
    metadata: Option<&Vec<FileMetadata>>,
    cwd: &str,
    out: &mut Vec<u8>,
)
    ensures
        final(out)@ == old(out)@ + xml_output(
            *config,
            files@,
            view_of(tree),
            views_of(metadata),
            cwd@,
        ),
{
    let ghost base = out@;
    push_str(out, "<?xml version=\"1.0\" encoding=\"UTF-8\"?>\n");
    let ghost mut done = text("<?xml version=\"1.0\" encoding=\"UTF-8\"?>\n");
    push_str(out, "<concatenation>\n");
    proof {
        done = lemma_step(base, done, text("<concatenation>\n"));
    }
    match tree {
        Some(tree) => {
            write_tree_xml(out, tree);
            proof {
                done = lemma_step(base, done, xml_tree(tree@));
            }
        },
        None => {
            proof {
                done = lemma_step(base, done, Seq::empty());
            }
        },
    }
    if config.show_dir_list {
        write_matched_dir_list_xml(out, files, cwd);
        proof {
            done = lemma_step(base, done, xml_dir_list(files@, cwd@));
        }
    } else {
        proof {
            done = lemma_step(base, done, Seq::empty());
        }
    }
    match metadata {
        Some(metadata) => {
            write_file_metadata_xml(out, metadata);
            proof {
                done = lemma_step(base, done, xml_metadata(meta_views(metadata@)));
            }
        },
        None => {
            proof {
                done = lemma_step(base, done, Seq::empty());
            }
        },
    }
    write_contents_xml(out, config.include_binary, files);
    proof {
        done = lemma_step(base, done, xml_contents(config.include_binary, files@));
    }
    push_str(out, "</concatenation>\n");
    proof {
        done = lemma_step(base, done, text("</concatenation>\n"));
    }
}

} // verus!
