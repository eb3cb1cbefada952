//! The document: the matched files with their contents, in the structured or
//! in the plain form.

use crate::config::{OutputFormat, RunConfig};
use crate::metadata::{
    collect_file_metadata, metadata_list, sorted_metadata, LoadedFile, MetaView,
};
use crate::encode::text;
use crate::output_text::{
    ends_in_newline, text_embedded, text_file_body, text_file_footer, text_output,
    write_text_output,
};
use crate::output_xml::{
    read_error_text, write_xml_output, xml_embedded, xml_output, EmbeddedView,
};
use crate::text::view_of;
use vstd::prelude::*;

verus! {

/// The entries of the metadata block of a run: the metadata of the files in
/// the order of the sort mode, or nothing where no metadata is shown.
pub open spec fn metadata_block(config: RunConfig, files: Seq<LoadedFile>) -> Option<Seq<MetaView>> {
    if config.show_metadata {
        Some(sorted_metadata(config.metadata_sort, metadata_list(files)))
    } else {
        None
    }
}

/// The document of a run.
pub open spec fn document(
    config: RunConfig,
    files: Seq<LoadedFile>,
    tree: Option<Seq<char>>,
    cwd: Seq<char>,
) -> Seq<u8> {
    match config.format {
        OutputFormat::Xml => xml_output(config, files, tree, metadata_block(config, files), cwd),
        OutputFormat::Text => text_output(config, files, tree, metadata_block(config, files)),
    }
}

/// A file that could not be read keeps its place in both forms of the
/// document: its section stands where its content would, with a sentence
/// that names the file in place of the content, and in the plain form with
/// the footer behind it.
pub proof fn lemma_unreadable_file_is_said(keep_binary: bool, file: LoadedFile)
    requires
        file.content is Unreadable,
    ensures
        xml_embedded(keep_binary, file) == EmbeddedView::Text(read_error_text(file.path@)),
        text_embedded(keep_binary, file) == EmbeddedView::Text(read_error_text(file.path@)),
        text_file_body(file.absolute@, text_embedded(keep_binary, file)) == read_error_text(
            file.path@,
        ) + (if ends_in_newline(read_error_text(file.path@)) {
            Seq::empty()
        } else {
            text("\n")
        }) + text_file_footer(file.absolute@),
{
}

/// Writes the document of a run behind what `out` holds. `files` are the
/// matched files with their contents, `tree` the rendered directory tree if
/// one is shown, and `cwd` the working directory, against which the listing
/// by directory shows its paths.
pub fn write_output_to_writer(
    config: &RunConfig,
    files: &Vec<LoadedFile>,
    tree: Option<&str>,
    cwd: &str,
    out: &mut Vec<u8>,
)
    ensures
        final(out)@ == old(out)@ + document(*config, files@, view_of(tree), cwd@),
{
    let metadata = if config.show_metadata {
        Some(collect_file_metadata(files, config.metadata_sort))
    } else {
        None
    };
    match config.format {
        OutputFormat::Xml => write_xml_output(config, files, tree, metadata.as_ref(), cwd, out),
        OutputFormat::Text => write_text_output(config, files, tree, metadata.as_ref(), out),
    }
}

/// The document of a run.
pub fn render_output(config: &RunConfig, files: &Vec<LoadedFile>, tree: Option<&str>, cwd: &str) -> (doc:
    Vec<u8>)
    ensures
        doc@ == document(*config, files@, view_of(tree), cwd@),
{
    let mut doc: Vec<u8> = Vec::new();
    write_output_to_writer(config, files, tree, cwd, &mut doc);
    assert(doc@ =~= document(*config, files@, view_of(tree), cwd@));
    doc
}

} // verus!
