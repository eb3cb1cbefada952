//! The plain form of the document: sections between rules of dashes, stars
//! and equals signs, with a numbered header and a footer for each file.

use crate::config::RunConfig;
use crate::encode::{
    base64_standard, decimal, encode_base64, lemma_step, push_bytes, push_decimal, push_str, text,
};
use crate::metadata::{meta_views, FileContent, FileMetadata, LoadedFile, MetaView};
use crate::output_xml::{read_error_body, read_error_text, views_of, Embedded, EmbeddedView};
use crate::text::{utf8, view_of};
use crate::text_detect::{bytes_are_probably_text, is_text};
use vstd::prelude::*;

verus! {

/// The rule that opens a section.
pub open spec fn dash_rule() -> Seq<u8> {
    text("--------------------------------------------------------------------------------\n")
}

/// The rule under the title of a section.
pub open spec fn star_rule() -> Seq<u8> {
    text("********************************************************************************\n")
}

/// The rule that closes a section.
pub open spec fn equals_rule() -> Seq<u8> {
    text("================================================================================\n")
}

/// The line that says that nothing matched.
pub open spec fn no_match_line() -> Seq<u8> {
    text("No files matched the criteria.\n")
}

/// The tree section: the tree as it was given, under a dot for its root.
pub open spec fn text_tree(tree: Seq<char>) -> Seq<u8> {
    dash_rule() + text("# Directory Tree (from current directory)\n") + star_rule() + text(".\n")
        + utf8(tree) + text("\n") + equals_rule() + text("\n")
}

/// What the metadata section says of one file: why it could not be read, or
/// its two counts.
pub open spec fn text_metadata_counts(entry: MetaView) -> Seq<u8> {
    match entry.read_error {
        Some(error) => text(" (error: ") + utf8(error) + text(")\n"),
        None => text(" (lines: ") + decimal(entry.lines) + text(", chars: ") + decimal(
            entry.characters,
        ) + text(")\n"),
    }
}

/// The line of one file in the metadata section; `index` counts from 1.
pub open spec fn text_metadata_line(index: nat, entry: MetaView) -> Seq<u8> {
    decimal(index) + text(": ") + utf8(entry.path) + (if entry.is_binary {
        text(" [binary]")
    } else {
        Seq::empty()
    }) + text_metadata_counts(entry)
}

/// The lines of the metadata section.
pub open spec fn text_metadata_lines(metadata: Seq<MetaView>) -> Seq<u8>
    decreases metadata.len(),
{
    if metadata.len() == 0 {
        Seq::empty()
    } else {
        text_metadata_lines(metadata.drop_last()) + text_metadata_line(
            metadata.len(),
            metadata.last(),
        )
    }
}

/// The metadata section.
pub open spec fn text_metadata(metadata: Seq<MetaView>) -> Seq<u8> {
    dash_rule() + text("# File Metadata (") + decimal(metadata.len()) + text(" files)\n")
        + star_rule() + (if metadata.len() == 0 {
        no_match_line()
    } else {
        text_metadata_lines(metadata)
    }) + equals_rule() + text("\n")
}

/// How the plain form carries a file: binary content in base64 where binary
/// files are wanted, other content as it is, and a sentence in place of the
/// content of a file that could not be read.
pub open spec fn text_embedded(keep_binary: bool, file: LoadedFile) -> EmbeddedView {
    match file.content {
        FileContent::Bytes(bytes) => if keep_binary && !is_text(bytes@) {
            EmbeddedView::Base64(base64_standard(bytes@))
        } else {
            EmbeddedView::Text(bytes@)
        },
        FileContent::Unreadable(error) => EmbeddedView::Text(read_error_text(file.path@)),
    }
}

/// The bytes end in a line feed.
pub open spec fn ends_in_newline(bytes: Seq<u8>) -> bool {
    bytes.len() > 0 && bytes.last() == 10
}

/// The header of the section of one file; `index` counts from 1.
pub open spec fn text_file_header(index: nat, total: nat, absolute: Seq<char>) -> Seq<u8> {
    text("\n") + dash_rule() + text("# File ") + decimal(index) + text("/") + decimal(total)
        + text(": ") + utf8(absolute) + text("\n") + star_rule()
}

/// The footer of the section of one file.
pub open spec fn text_file_footer(absolute: Seq<char>) -> Seq<u8> {
    text("\n") + text("# EOF: ") + utf8(absolute) + text("\n") + equals_rule()
}

/// What follows the header of a file: text as it is, with a line feed
/// behind it unless it ends in one; binary content in base64 behind its
/// marker; each followed by the footer.
pub open spec fn text_file_body(absolute: Seq<char>, body: EmbeddedView) -> Seq<u8> {
    match body {
        EmbeddedView::Text(bytes) => bytes + (if ends_in_newline(bytes) {
            Seq::empty()
        } else {
            text("\n")
        }) + text_file_footer(absolute),
        EmbeddedView::Base64(encoded) => text("[BINARY FILE: base64]\n") + encoded + text("\n")
            + text_file_footer(absolute),
    }
}

/// The section of one file.
pub open spec fn text_file_entry(index: nat, total: nat, absolute: Seq<char>, body: EmbeddedView) -> Seq<
    u8,
> {
    text_file_header(index, total, absolute) + text_file_body(absolute, body)
}

/// The sections of the first files of a document of `total` files.
pub open spec fn text_file_entries(keep_binary: bool, files: Seq<LoadedFile>, total: nat) -> Seq<u8>
    decreases files.len(),
{
    if files.len() == 0 {
        Seq::empty()
    } else {
        text_file_entries(keep_binary, files.drop_last(), total) + text_file_entry(
            files.len(),
            total,
            files.last().absolute@,
            text_embedded(keep_binary, files.last()),
        )
    }
}

/// What follows the title of the contents section: the sections of the
/// files, or the line that says that nothing matched and the closing rule.
pub open spec fn text_contents_body(keep_binary: bool, files: Seq<LoadedFile>) -> Seq<u8> {
    if files.len() == 0 {
        no_match_line() + equals_rule()
    } else {
        text_file_entries(keep_binary, files, files.len())
    }
}

/// The contents section.
pub open spec fn text_contents(keep_binary: bool, files: Seq<LoadedFile>) -> Seq<u8> {
    dash_rule() + text("# File Contents (") + decimal(files.len()) + text(" files)\n")
        + star_rule() + text_contents_body(keep_binary, files)
}

/// The plain form of the document, with the metadata section as given.
pub open spec fn text_output(
    config: RunConfig,
    files: Seq<LoadedFile>,
    tree: Option<Seq<char>>,
    metadata: Option<Seq<MetaView>>,
) -> Seq<u8> {
    (match tree {
        Some(tree) => text_tree(tree),
        None => Seq::empty(),
    }) + (match metadata {
        Some(metadata) => text_metadata(metadata),
        None => Seq::empty(),
    }) + text_contents(config.include_binary, files)
}

/// Appends the rule that opens a section.
pub fn push_dash_rule(out: &mut Vec<u8>)
    ensures
        final(out)@ == old(out)@ + dash_rule(),
{
    push_str(
        out,
        "--------------------------------------------------------------------------------\n",
    );
}

/// Appends the rule under the title of a section.
pub fn push_star_rule(out: &mut Vec<u8>)
    ensures
        final(out)@ == old(out)@ + star_rule(),
{
    push_str(
        out,
        "********************************************************************************\n",
    );
}

/// Appends the rule that closes a section.
pub fn push_equals_rule(out: &mut Vec<u8>)
    ensures
        final(out)@ == old(out)@ + equals_rule(),
{
    push_str(
        out,
        "================================================================================\n",
    );
}

/// Writes the tree section.
pub fn write_tree_text(out: &mut Vec<u8>, tree: &str)
    ensures
        final(out)@ == old(out)@ + text_tree(tree@),
{
    let ghost base = out@;
    push_dash_rule(out);
    let ghost mut done = dash_rule();
    push_str(out, "# Directory Tree (from current directory)\n");
    proof {
        done = lemma_step(base, done, text("# Directory Tree (from current directory)\n"));
    }
    push_star_rule(out);
    proof {
        done = lemma_step(base, done, star_rule());
    }
    push_str(out, ".\n");
    proof {
        done = lemma_step(base, done, text(".\n"));
    }
    push_str(out, tree);
    proof {
        done = lemma_step(base, done, utf8(tree@));
    }
    push_str(out, "\n");
    proof {
        done = lemma_step(base, done, text("\n"));
    }
    push_equals_rule(out);
    proof {
        done = lemma_step(base, done, equals_rule());
    }
    push_str(out, "\n");
    proof {
        done = lemma_step(base, done, text("\n"));
    }
}

/// Writes what the metadata section says of one file.
pub fn write_metadata_counts_text(out: &mut Vec<u8>, entry: &FileMetadata)
    ensures
        final(out)@ == old(out)@ + text_metadata_counts(entry@),
{
    let ghost base = out@;
    match &entry.read_error {
        Some(error) => {
            push_str(out, " (error: ");
            let ghost mut done = text(" (error: ");
            push_str(out, error.as_str());
            proof {
                done = lemma_step(base, done, utf8(error@));
            }
            push_str(out, ")\n");
            proof {
                done = lemma_step(base, done, text(")\n"));
            }
        },
        None => {
            push_str(out, " (lines: ");
            let ghost mut done = text(" (lines: ");
            push_decimal(out, entry.lines);
            proof {
                done = lemma_step(base, done, decimal(entry.lines as nat));
            }
            push_str(out, ", chars: ");
            proof {
                done = lemma_step(base, done, text(", chars: "));
            }
            push_decimal(out, entry.characters);
            proof {
                done = lemma_step(base, done, decimal(entry.characters as nat));
            }
            push_str(out, ")\n");
            proof {
                done = lemma_step(base, done, text(")\n"));
            }
        },
    }
}

/// Writes the line of one file of the metadata section; `index` counts
/// from 1.
pub fn write_metadata_line_text(out: &mut Vec<u8>, index: usize, entry: &FileMetadata)
    ensures
        final(out)@ == old(out)@ + text_metadata_line(index as nat, entry@),
{
    let ghost base = out@;
    push_decimal(out, index);
    let ghost mut done = decimal(index as nat);
    push_str(out, ": ");
    proof {
        done = lemma_step(base, done, text(": "));
    }
    push_str(out, entry.path.as_str());
    proof {
        done = lemma_step(base, done, utf8(entry.path@));
    }
    if entry.is_binary {
        push_str(out, " [binary]");
        proof {
            done = lemma_step(base, done, text(" [binary]"));
        }
    } else {
        proof {
            done = lemma_step(base, done, Seq::empty());
        }
    }
    write_metadata_counts_text(out, entry);
    proof {
        done = lemma_step(base, done, text_metadata_counts(entry@));
    }
}

/// Writes the metadata section.
pub fn write_file_metadata_text(out: &mut Vec<u8>, metadata: &Vec<FileMetadata>)
    ensures
        final(out)@ == old(out)@ + text_metadata(meta_views(metadata@)),
{
    let ghost entries = meta_views(metadata@);
    let ghost base = out@;
    push_dash_rule(out);
    let ghost mut done = dash_rule();
    push_str(out, "# File Metadata (");
    proof {
        done = lemma_step(base, done, text("# File Metadata ("));
    }
    push_decimal(out, metadata.len());
    proof {
        done = lemma_step(base, done, decimal(entries.len()));
    }
    push_str(out, " files)\n");
    proof {
        done = lemma_step(base, done, text(" files)\n"));
    }
    push_star_rule(out);
    proof {
        done = lemma_step(base, done, star_rule());
    }
    if metadata.len() == 0 {
        push_str(out, "No files matched the criteria.\n");
        proof {
            done = lemma_step(base, done, no_match_line());
        }
    } else {
        let ghost head = out@;
        let mut i: usize = 0;
        assert(entries.take(0) =~= Seq::empty());
        assert(out@ =~= head + Seq::empty());
        while i < metadata.len()
            invariant
                i <= metadata.len(),
                entries == meta_views(metadata@),
                out@ == head + text_metadata_lines(entries.take(i as int)),
            decreases metadata.len() - i,
        {
            write_metadata_line_text(out, i + 1, &metadata[i]);
            proof {
                let upto = entries.take(i + 1);
                assert(upto.drop_last() =~= entries.take(i as int));
                assert(upto.last() == metadata@[i as int]@);
                let now = lemma_step(
                    head,
                    text_metadata_lines(entries.take(i as int)),
                    text_metadata_line((i + 1) as nat, metadata@[i as int]@),
                );
            }
            i += 1;
        }
        proof {
            assert(entries.take(i as int) =~= entries);
            done = lemma_step(base, done, text_metadata_lines(entries));
        }
    }
    push_equals_rule(out);
    proof {
        done = lemma_step(base, done, equals_rule());
    }
    push_str(out, "\n");
    proof {
        done = lemma_step(base, done, text("\n"));
    }
}

/// Prepares the content of a file for the plain form.
pub fn embed_for_text(keep_binary: bool, file: &LoadedFile) -> (body: Embedded)
    ensures
        body@ == text_embedded(keep_binary, *file),
{
    match &file.content {
        FileContent::Bytes(bytes) => {
            if keep_binary && !bytes_are_probably_text(bytes.as_slice()) {
                Embedded::Base64(encode_base64(bytes.as_slice()))
            } else {
                let mut body: Vec<u8> = Vec::new();
                push_bytes(&mut body, bytes.as_slice());
                assert(body@ =~= bytes@);
                Embedded::Text(body)
            }
        },
        FileContent::Unreadable(_) => Embedded::Text(read_error_body(file.path.as_str())),
    }
}

/// Writes the header of the section of one file; `index` counts from 1.
pub fn write_file_header_text(out: &mut Vec<u8>, index: usize, total: usize, absolute: &str)
    ensures
        final(out)@ == old(out)@ + text_file_header(index as nat, total as nat, absolute@),
{
    let ghost base = out@;
    push_str(out, "\n");
    let ghost mut done = text("\n");
    push_dash_rule(out);
    proof {
        done = lemma_step(base, done, dash_rule());
    }
    push_str(out, "# File ");
    proof {
        done = lemma_step(base, done, text("# File "));
    }
    push_decimal(out, index);
    proof {
        done = lemma_step(base, done, decimal(index as nat));
    }
    push_str(out, "/");
    proof {
        done = lemma_step(base, done, text("/"));
    }
    push_decimal(out, total);
    proof {
        done = lemma_step(base, done, decimal(total as nat));
    }
    push_str(out, ": ");
    proof {
        done = lemma_step(base, done, text(": "));
    }
    push_str(out, absolute);
    proof {
        done = lemma_step(base, done, utf8(absolute@));
    }
    push_str(out, "\n");
    proof {
        done = lemma_step(base, done, text("\n"));
    }
    push_star_rule(out);
    proof {
        done = lemma_step(base, done, star_rule());
    }
}

/// Writes the footer of the section of one file.
pub fn write_file_footer_text(out: &mut Vec<u8>, absolute: &str)
    ensures
        final(out)@ == old(out)@ + text_file_footer(absolute@),
{
    let ghost base = out@;
    push_str(out, "\n");
    let ghost mut done = text("\n");
    push_str(out, "# EOF: ");
    proof {
        done = lemma_step(base, done, text("# EOF: "));
    }
    push_str(out, absolute);
    proof {
        done = lemma_step(base, done, utf8(absolute@));
    }
    push_str(out, "\n");
    proof {
        done = lemma_step(base, done, text("\n"));
    }
    push_equals_rule(out);
    proof {
        done = lemma_step(base, done, equals_rule());
    }
}

/// Writes what follows the header of a file.
pub fn write_file_body_text(out: &mut Vec<u8>, absolute: &str, body: &Embedded)
    ensures
        final(out)@ == old(out)@ + text_file_body(absolute@, body@),
{
    let ghost base = out@;
    match body {
        Embedded::Text(bytes) => {
            push_bytes(out, bytes.as_slice());
            let ghost mut done = bytes@;
            let n: usize = bytes.len();
            if n > 0 && bytes[n - 1] == 10 {
                proof {
                    done = lemma_step(base, done, Seq::empty());
                }
            } else {
                push_str(out, "\n");
                proof {
                    done = lemma_step(base, done, text("\n"));
                }
            }
            write_file_footer_text(out, absolute);
            proof {
                done = lemma_step(base, done, text_file_footer(absolute@));
            }
        },
        Embedded::Base64(encoded) => {
            push_str(out, "[BINARY FILE: base64]\n");
            let ghost mut done = text("[BINARY FILE: base64]\n");
            push_bytes(out, encoded.as_slice());
            proof {
                done = lemma_step(base, done, encoded@);
            }
            push_str(out, "\n");
            proof {
                done = lemma_step(base, done, text("\n"));
            }
            write_file_footer_text(out, absolute);
            proof {
                done = lemma_step(base, done, text_file_footer(absolute@));
            }
        },
    }
}

/// Writes the section of one file; `index` counts from 1.
pub fn write_file_text(
    out: &mut Vec<u8>,
    index: usize,
    total: usize,
    absolute: &str,
    body: &Embedded,
)
    ensures
        final(out)@ == old(out)@ + text_file_entry(index as nat, total as nat, absolute@, body@),
{
    let ghost base = out@;
    write_file_header_text(out, index, total, absolute);
    let ghost mut done = text_file_header(index as nat, total as nat, absolute@);
    write_file_body_text(out, absolute, body);
    proof {
        done = lemma_step(base, done, text_file_body(absolute@, body@));
    }
}

/// Writes what follows the title of the contents section.
pub fn write_contents_body_text(out: &mut Vec<u8>, keep_binary: bool, files: &Vec<LoadedFile>)
    ensures
        final(out)@ == old(out)@ + text_contents_body(keep_binary, files@),
{
    let ghost base = out@;
    let total: usize = files.len();
    if total == 0 {
        push_str(out, "No files matched the criteria.\n");
        let ghost mut done = no_match_line();
        push_equals_rule(out);
        proof {
            done = lemma_step(base, done, equals_rule());
        }
    } else {
        let mut i: usize = 0;
        assert(files@.take(0) =~= Seq::empty());
        assert(out@ =~= base + Seq::empty());
        while i < total
            invariant
                i <= total,
                total == files@.len(),
                out@ == base + text_file_entries(keep_binary, files@.take(i as int), total as nat),
            decreases total - i,
        {
            let file = &files[i];
            let body = embed_for_text(keep_binary, file);
            write_file_text(out, i + 1, total, file.absolute.as_str(), &body);
            proof {
                let upto = files@.take(i + 1);
                assert(upto.drop_last() =~= files@.take(i as int));
                assert(upto.last() == *file);
                let now = lemma_step(
                    base,
                    text_file_entries(keep_binary, files@.take(i as int), total as nat),
                    text_file_entry(
                        (i + 1) as nat,
                        total as nat,
                        file.absolute@,
                        text_embedded(keep_binary, *file),
                    ),
                );
            }
            i += 1;
        }
        assert(files@.take(i as int) =~= files@);
    }
}

/// Writes the contents section.
pub fn write_contents_text(out: &mut Vec<u8>, keep_binary: bool, files: &Vec<LoadedFile>)
    ensures
        final(out)@ == old(out)@ + text_contents(keep_binary, files@),
{
    let ghost base = out@;
    push_dash_rule(out);
    let ghost mut done = dash_rule();
    push_str(out, "# File Contents (");
    proof {
        done = lemma_step(base, done, text("# File Contents ("));
    }
    push_decimal(out, files.len());
    proof {
        done = lemma_step(base, done, decimal(files@.len()));
    }
    push_str(out, " files)\n");
    proof {
        done = lemma_step(base, done, text(" files)\n"));
    }
    push_star_rule(out);
    proof {
        done = lemma_step(base, done, star_rule());
    }
    write_contents_body_text(out, keep_binary, files);
    proof {
        done = lemma_step(base, done, text_contents_body(keep_binary, files@));
    }
}

/// Writes the plain form of the document: the tree section if a tree is
/// given, the metadata section if metadata is given, and the contents
/// section.
pub fn write_text_output(
    config: &RunConfig,
    files: &Vec<LoadedFile>,
    tree: Option<&str>,
    metadata: Option<&Vec<FileMetadata>>,
    out: &mut Vec<u8>,
)
    ensures
        final(out)@ == old(out)@ + text_output(*config, files@, view_of(tree), views_of(metadata)),
{
    let ghost base = out@;
    let ghost mut done = Seq::<u8>::empty();
    assert(out@ =~= base + done);
    match tree {
        Some(tree) => {
            write_tree_text(out, tree);
            proof {
                done = text_tree(tree@);
            }
        },
        None => {},
    }
    match metadata {
        Some(metadata) => {
            write_file_metadata_text(out, metadata);
            proof {
                done = lemma_step(base, done, text_metadata(meta_views(metadata@)));
            }
        },
        None => {
            proof {
                done = lemma_step(base, done, Seq::empty());
            }
        },
    }
    write_contents_text(out, config.include_binary, files);
    proof {
        done = lemma_step(base, done, text_contents(config.include_binary, files@));
    }
}

} // verus!
