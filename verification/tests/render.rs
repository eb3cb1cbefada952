use concat::cli::{Cli, MetadataSort, RunArgs};
use concat::config::RunConfig;
use concat::encode::{
    is_permitted, push_bytes, push_decimal, push_str, push_xml_escaped, sanitize_xml_text,
    write_cdata_body, xml_escape_text,
};
use concat::metadata::{
    arrange, build_file_metadata, collect_file_metadata, copy_metadata, count_lines_in_bytes,
    describe_content, meta_rank, FileContent, FileMetadata, LoadedFile,
};
use concat::output::{render_output, write_output_to_writer};
use concat::output_text::{embed_for_text, write_file_metadata_text, write_file_text, write_text_output};
use concat::output_xml::{
    collect_names, embed_for_xml, push_relative_dir, read_error_body, write_file_metadata_xml,
    write_file_xml, write_matched_dir_list_xml, write_xml_output, Embedded,
};

const DASHES: &str =
    "--------------------------------------------------------------------------------\n";
const STARS: &str =
    "********************************************************************************\n";
const EQUALS: &str =
    "================================================================================\n";

fn config(run: RunArgs) -> RunConfig {
    RunConfig::from_cli(Cli { command: None, run }, true).unwrap()
}

fn loaded(path: &str, content: &[u8]) -> LoadedFile {
    LoadedFile {
        path: path.to_string(),
        absolute: path.to_string(),
        content: FileContent::Bytes(content.to_vec()),
    }
}

fn unreadable(path: &str, absolute: &str, why: &str) -> LoadedFile {
    LoadedFile {
        path: path.to_string(),
        absolute: absolute.to_string(),
        content: FileContent::Unreadable(why.to_string()),
    }
}

fn as_text(bytes: Vec<u8>) -> String {
    String::from_utf8(bytes).expect("the document is text")
}

fn written(write: impl FnOnce(&mut Vec<u8>)) -> String {
    let mut out = Vec::new();
    write(&mut out);
    as_text(out)
}

#[test]
fn the_structured_form_of_one_file() {
    let files = vec![loaded("/w/src/a.txt", b"hello\n")];
    let doc = as_text(render_output(&config(RunArgs::default()), &files, None, "/w"));
    let expected = "<?xml version=\"1.0\" encoding=\"UTF-8\"?>\n\
<concatenation>\n\
\x20 <matchedFilesDirStructureList>\n\
\x20   <dirEntry>\"src\": [\"a.txt\"]</dirEntry>\n\
\x20 </matchedFilesDirStructureList>\n\
\x20 <fileMetadata count=\"1\">\n\
\x20   <file binary=\"false\">\n\
\x20     <path>/w/src/a.txt</path>\n\
\x20     <lines>1</lines>\n\
\x20     <characters>6</characters>\n\
\x20   </file>\n\
\x20 </fileMetadata>\n\
\x20 <fileContents count=\"1\">\n\
\x20   <file>\n\
\x20     <path>/w/src/a.txt</path>\n\
\x20     <content><![CDATA[\n\
hello\n\
]]></content>\n\
\x20   </file>\n\
\x20 </fileContents>\n\
</concatenation>\n";
    assert_eq!(doc, expected);
}

#[test]
fn the_plain_form_of_one_file() {
    let files = vec![loaded("/w/src/a.txt", b"hello\n")];
    let run = RunArgs { text: true, ..RunArgs::default() };
    let doc = as_text(render_output(&config(run), &files, None, "/w"));
    let expected = format!(
        "{DASHES}# File Metadata (1 files)\n{STARS}1: /w/src/a.txt (lines: 1, chars: 6)\n{EQUALS}\n\
{DASHES}# File Contents (1 files)\n{STARS}\n\
{DASHES}# File 1/1: /w/src/a.txt\n{STARS}hello\n\n# EOF: /w/src/a.txt\n{EQUALS}"
    );
    assert_eq!(doc, expected);
}

#[test]
fn the_tree_is_carried_as_it_is() {
    let tree = "├── a\n└── b]]>c";
    let bare = RunArgs { no_metadata: true, no_dir_list: true, ..RunArgs::default() };
    let xml = as_text(render_output(&config(bare), &Vec::new(), Some(tree), "/w"));
    let expected_xml = "<?xml version=\"1.0\" encoding=\"UTF-8\"?>\n\
<concatenation>\n\
\x20 <directoryTree context=\".\">\n\
\x20   <representation><![CDATA[\n\
├── a\n└── b]]]]><![CDATA[>c]]></representation>\n\
\x20 </directoryTree>\n\
\x20 <fileContents count=\"0\">\n\
\x20   <message>No files matched the criteria.</message>\n\
\x20 </fileContents>\n\
</concatenation>\n";
    assert_eq!(xml, expected_xml);

    let bare_text = RunArgs { text: true, no_metadata: true, ..RunArgs::default() };
    let plain = as_text(render_output(&config(bare_text), &Vec::new(), Some(tree), "/w"));
    let expected_plain = format!(
        "{DASHES}# Directory Tree (from current directory)\n{STARS}.\n├── a\n└── b]]>c\n{EQUALS}\n\
{DASHES}# File Contents (0 files)\n{STARS}No files matched the criteria.\n{EQUALS}"
    );
    assert_eq!(plain, expected_plain);
}

#[test]
fn empty_metadata_says_that_nothing_matched() {
    let xml = as_text(render_output(&config(RunArgs::default()), &Vec::new(), None, "/w"));
    let expected = "<?xml version=\"1.0\" encoding=\"UTF-8\"?>\n\
<concatenation>\n\
\x20 <matchedFilesDirStructureList>\n\
\x20 </matchedFilesDirStructureList>\n\
\x20 <fileMetadata count=\"0\">\n\
\x20   <message>No files matched the criteria.</message>\n\
\x20 </fileMetadata>\n\
\x20 <fileContents count=\"0\">\n\
\x20   <message>No files matched the criteria.</message>\n\
\x20 </fileContents>\n\
</concatenation>\n";
    assert_eq!(xml, expected);
    let plain = written(|out| write_file_metadata_text(out, &Vec::new()));
    assert_eq!(
        plain,
        format!("{DASHES}# File Metadata (0 files)\n{STARS}No files matched the criteria.\n{EQUALS}\n")
    );
}

#[test]
fn text_gets_a_line_feed_at_its_end_unless_it_has_one() {
    let with = written(|out| write_file_text(out, 2, 3, "/w/a", &Embedded::Text(b"x\n".to_vec())));
    assert_eq!(
        with,
        format!("\n{DASHES}# File 2/3: /w/a\n{STARS}x\n\n# EOF: /w/a\n{EQUALS}")
    );
    let without = written(|out| write_file_text(out, 2, 3, "/w/a", &Embedded::Text(b"x".to_vec())));
    assert_eq!(with, without);
    let empty = written(|out| write_file_text(out, 1, 1, "/w/a", &Embedded::Text(Vec::new())));
    assert_eq!(
        empty,
        format!("\n{DASHES}# File 1/1: /w/a\n{STARS}\n\n# EOF: /w/a\n{EQUALS}")
    );
}

#[test]
fn binary_content_goes_in_base64() {
    let file = loaded("/w/bin.dat", b"\0\0\0binary");
    assert!(matches!(embed_for_text(true, &file), Embedded::Base64(b) if b == b"AAAAYmluYXJ5"));
    assert!(matches!(embed_for_text(false, &file), Embedded::Text(b) if b == b"\0\0\0binary"));
    assert!(matches!(embed_for_xml(true, &file), Embedded::Base64(b) if b == b"AAAAYmluYXJ5"));
    assert!(matches!(embed_for_xml(false, &file), Embedded::Text(b) if b == "\u{fffd}\u{fffd}\u{fffd}binary".as_bytes()));
    let padded = loaded("/w/p", b"\0a");
    assert!(matches!(embed_for_xml(true, &padded), Embedded::Base64(b) if b == b"AGE="));

    let plain = written(|out| write_file_text(out, 1, 1, "/w/bin.dat", &embed_for_text(true, &file)));
    assert_eq!(
        plain,
        format!(
            "\n{DASHES}# File 1/1: /w/bin.dat\n{STARS}[BINARY FILE: base64]\nAAAAYmluYXJ5\n\n# EOF: /w/bin.dat\n{EQUALS}"
        )
    );
    let xml = written(|out| write_file_xml(out, "/w/bin.dat", &embed_for_xml(true, &file)));
    assert_eq!(
        xml,
        "    <file>\n      <path>/w/bin.dat</path>\n      <content encoding=\"base64\"><![CDATA[\nAAAAYmluYXJ5]]></content>\n    </file>\n"
    );
}

#[test]
fn a_file_that_cannot_be_read_does_not_stop_the_document() {
    let gone = unreadable("src/gone.txt", "/w/src/gone.txt", "No such file or directory");
    let xml = written(|out| write_file_xml(out, &gone.absolute, &embed_for_xml(false, &gone)));
    assert_eq!(
        xml,
        "    <file>\n      <path>/w/src/gone.txt</path>\n      <content><![CDATA[\nError reading file content for src/gone.txt]]></content>\n    </file>\n"
    );
    assert!(matches!(
        embed_for_text(true, &gone),
        Embedded::Text(b) if b == b"Error reading file content for src/gone.txt"
    ));
    let plain =
        written(|out| write_file_text(out, 1, 2, &gone.absolute, &embed_for_text(false, &gone)));
    assert_eq!(
        plain,
        format!(
            "\n{DASHES}# File 1/2: /w/src/gone.txt\n{STARS}Error reading file content for src/gone.txt\n\n# EOF: /w/src/gone.txt\n{EQUALS}"
        )
    );
    assert_eq!(read_error_body("a/b"), b"Error reading file content for a/b");

    let meta = build_file_metadata(&gone);
    assert_eq!(meta.path, "/w/src/gone.txt");
    assert_eq!((meta.lines, meta.characters, meta.is_binary), (0, 0, false));
    assert_eq!(meta.read_error.as_deref(), Some("No such file or directory"));
    let block = written(|out| write_file_metadata_xml(out, &vec![copy_metadata(&meta)]));
    assert_eq!(
        block,
        "  <fileMetadata count=\"1\">\n    <file binary=\"false\">\n      <path>/w/src/gone.txt</path>\n      <error>No such file or directory</error>\n    </file>\n  </fileMetadata>\n"
    );
    let lines = written(|out| write_file_metadata_text(out, &vec![meta]));
    assert_eq!(
        lines,
        format!("{DASHES}# File Metadata (1 files)\n{STARS}1: /w/src/gone.txt (error: No such file or directory)\n{EQUALS}\n")
    );
}

#[test]
fn a_file_that_cannot_be_read_is_said_in_the_plain_document() {
    let files = vec![
        loaded("/w/a.txt", b"first\n"),
        unreadable("gone.txt", "/w/gone.txt", "Permission denied"),
        loaded("/w/z.txt", b"last"),
    ];
    let run = RunArgs { text: true, no_metadata: true, ..RunArgs::default() };
    let doc = as_text(render_output(&config(run), &files, None, "/w"));
    let expected = format!(
        "{DASHES}# File Contents (3 files)\n{STARS}\n\
{DASHES}# File 1/3: /w/a.txt\n{STARS}first\n\n# EOF: /w/a.txt\n{EQUALS}\n\
{DASHES}# File 2/3: /w/gone.txt\n{STARS}Error reading file content for gone.txt\n\n# EOF: /w/gone.txt\n{EQUALS}\n\
{DASHES}# File 3/3: /w/z.txt\n{STARS}last\n\n# EOF: /w/z.txt\n{EQUALS}"
    );
    assert_eq!(doc, expected);

    let xml_run = RunArgs { no_metadata: true, no_dir_list: true, ..RunArgs::default() };
    let xml = as_text(render_output(&config(xml_run), &files, None, "/w"));
    assert!(xml.contains("  <fileContents count=\"3\">\n"));
    assert!(xml.contains(
        "      <path>/w/gone.txt</path>\n      <content><![CDATA[\nError reading file content for gone.txt]]></content>\n"
    ));
}

#[test]
fn lines_and_characters_are_counted() {
    assert_eq!(count_lines_in_bytes(b""), 0);
    assert_eq!(count_lines_in_bytes(b"a\nb\n"), 2);
    assert_eq!(count_lines_in_bytes(b"hello"), 1);
    assert_eq!(count_lines_in_bytes(b"\n"), 1);
    assert_eq!(count_lines_in_bytes(b"\n\n"), 2);
    assert_eq!(count_lines_in_bytes(b"a\n\nb"), 3);

    let two = build_file_metadata(&loaded("/w/a", b"a\nb\n"));
    assert_eq!((two.lines, two.characters, two.is_binary), (2, 4, false));
    let one = build_file_metadata(&loaded("/w/a", b"hello"));
    assert_eq!((one.lines, one.characters, one.is_binary), (1, 5, false));
    let wide = build_file_metadata(&loaded("/w/a", "héllo ✓\n".as_bytes()));
    assert_eq!((wide.lines, wide.characters, wide.is_binary), (1, 8, false));
    let broken = build_file_metadata(&loaded("/w/a", &[b'a', 0xff, b'b']));
    assert_eq!((broken.lines, broken.characters, broken.is_binary), (1, 3, false));
    let binary = build_file_metadata(&loaded("/w/a", "\0é\n✓".as_bytes()));
    assert_eq!((binary.lines, binary.characters, binary.is_binary), (2, 7, true));
    let empty = build_file_metadata(&loaded("/w/a", b""));
    assert_eq!((empty.lines, empty.characters, empty.is_binary), (0, 0, true));
    assert!(empty.read_error.is_none());

    let given = describe_content("/w/a", b"ab\n", "xyzzy");
    assert_eq!((given.lines, given.characters, given.is_binary), (1, 5, false));
}

fn meta(path: &str, lines: usize, characters: usize) -> FileMetadata {
    FileMetadata { path: path.to_string(), lines, characters, is_binary: false, read_error: None }
}

#[test]
fn metadata_is_sorted_by_the_count_and_then_by_the_path() {
    let files = vec![
        loaded("/w/b10", b"1\n2\n"),
        loaded("/w/a", b"long line of text"),
        loaded("/w/b2", b"x\ny\n"),
        loaded("/w/c", b"1\n2\n3\n"),
    ];
    let paths = |sort: MetadataSort| -> Vec<String> {
        collect_file_metadata(&files, sort).into_iter().map(|m| m.path).collect()
    };
    assert_eq!(paths(MetadataSort::Lines), ["/w/c", "/w/b2", "/w/b10", "/w/a"]);
    assert_eq!(paths(MetadataSort::Characters), ["/w/a", "/w/c", "/w/b2", "/w/b10"]);
    assert_eq!(paths(MetadataSort::Natural), ["/w/b10", "/w/a", "/w/b2", "/w/c"]);

    let entries = vec![meta("x7", 1, 1), meta("x007", 1, 1), meta("x", 2, 0), meta("x07", 1, 1)];
    assert_eq!(arrange(MetadataSort::Lines, &entries), vec![2, 0, 1, 3]);
    assert_eq!(arrange(MetadataSort::Characters, &entries), vec![0, 1, 3, 2]);
    assert_eq!(arrange(MetadataSort::Natural, &entries), vec![0, 1, 2, 3]);
    assert_eq!(meta_rank(MetadataSort::Lines, &entries[2], &entries[0]), -1);
    assert_eq!(meta_rank(MetadataSort::Lines, &entries[0], &entries[2]), 1);
    assert_eq!(meta_rank(MetadataSort::Lines, &entries[0], &entries[1]), 0);
    assert_eq!(meta_rank(MetadataSort::Characters, &meta("b", 1, 1), &meta("a", 9, 1)), 1);
    assert_eq!(meta_rank(MetadataSort::Natural, &entries[2], &entries[0]), 0);
}

#[test]
fn the_metadata_block_follows_the_sort_mode() {
    let files = vec![loaded("/w/a", b"1\n"), loaded("/w/b", &[0, b'\n', b'\n'])];
    let run = RunArgs { text: true, include_binary: true, ..RunArgs::default() };
    let doc = as_text(render_output(&config(run), &files, None, "/w"));
    assert!(doc.starts_with(&format!(
        "{DASHES}# File Metadata (2 files)\n{STARS}1: /w/b [binary] (lines: 2, chars: 3)\n2: /w/a (lines: 1, chars: 2)\n{EQUALS}\n"
    )));
    let xml = written(|out| {
        write_file_metadata_xml(out, &collect_file_metadata(&files, MetadataSort::Natural))
    });
    assert_eq!(
        xml,
        "  <fileMetadata count=\"2\">\n    <file binary=\"false\">\n      <path>/w/a</path>\n      <lines>1</lines>\n      <characters>2</characters>\n    </file>\n    <file binary=\"true\">\n      <path>/w/b</path>\n      <lines>2</lines>\n      <characters>3</characters>\n    </file>\n  </fileMetadata>\n"
    );
}

#[test]
fn the_end_of_a_literal_block_is_split() {
    let cdata = |input: &[u8]| written(|out| write_cdata_body(out, input));
    assert_eq!(cdata(b"a]]>b"), "a]]]]><![CDATA[>b");
    assert_eq!(cdata(b"]]>"), "]]]]><![CDATA[>");
    assert_eq!(cdata(b"]]]>"), "]]]]]><![CDATA[>");
    assert_eq!(cdata(b"]]>]]>"), "]]]]><![CDATA[>]]]]><![CDATA[>");
    assert_eq!(cdata(b"]]"), "]]");
    assert_eq!(cdata(b"]>"), "]>");
    assert_eq!(cdata(b"a]] >"), "a]] >");
    assert_eq!(cdata(b""), "");
    let mut out = b"kept".to_vec();
    write_cdata_body(&mut out, b"x]]>");
    assert_eq!(out, b"keptx]]]]><![CDATA[>");
}

/// Reads the text of literal blocks that follow each other without a gap,
/// from behind the opening of the first.
fn read_blocks(mut rest: &[u8]) -> Vec<u8> {
    let mut text = Vec::new();
    loop {
        let end = rest.windows(3).position(|w| w == b"]]>").expect("the block ends");
        text.extend_from_slice(&rest[..end]);
        rest = &rest[end + 3..];
        match rest.strip_prefix(b"<![CDATA[") {
            Some(more) => rest = more,
            None => return text,
        }
    }
}

#[test]
fn a_literal_block_gives_its_content_back() {
    let contents: [&[u8]; 9] = [
        b"",
        b"plain",
        b"]]>",
        b"a]]>b]]>c",
        b"]]]>]]",
        b"]]>]]>]",
        b">]]>>]]",
        b"]>]]]>]]>>",
        b"<![CDATA[x]]>",
    ];
    for content in contents {
        let mut written = Vec::new();
        write_cdata_body(&mut written, content);
        written.extend_from_slice(b"]]></content>");
        assert_eq!(read_blocks(&written), content);
    }
}

#[test]
fn the_marks_of_the_markup_are_escaped() {
    assert_eq!(xml_escape_text("a & b < c > d"), b"a &amp; b &lt; c &gt; d");
    assert_eq!(xml_escape_text("&amp;"), b"&amp;amp;");
    assert_eq!(xml_escape_text("\"quoted\" 'é'"), "\"quoted\" 'é'".as_bytes());
    assert_eq!(xml_escape_text(""), b"");
    assert_eq!(written(|out| push_xml_escaped(out, b"<>")), "&lt;&gt;");
}

#[test]
fn characters_that_the_markup_may_not_carry_are_replaced() {
    assert_eq!(sanitize_xml_text("a\tb\nc\rd"), "a\tb\nc\rd");
    assert_eq!(sanitize_xml_text("a\u{0}b\u{1}c\u{8}d\u{b}e\u{c}f\u{e}g\u{1f}h"), "a\u{fffd}b\u{fffd}c\u{fffd}d\u{fffd}e\u{fffd}f\u{fffd}g\u{fffd}h");
    assert_eq!(sanitize_xml_text("\u{7f}\u{80}é✓\u{d7ff}\u{e000}\u{fffd}😀\u{10ffff}"), "\u{7f}\u{80}é✓\u{d7ff}\u{e000}\u{fffd}😀\u{10ffff}");
    assert_eq!(sanitize_xml_text("\u{fffe}\u{ffff}"), "\u{fffd}\u{fffd}");
    assert!(is_permitted(' ') && is_permitted('\u{10000}'));
    assert!(!is_permitted('\u{1b}') && !is_permitted('\u{ffff}'));
}

#[test]
fn numbers_and_text_are_appended() {
    let number = |n: usize| written(|out| push_decimal(out, n));
    assert_eq!(number(0), "0");
    assert_eq!(number(7), "7");
    assert_eq!(number(10), "10");
    assert_eq!(number(1234567890), "1234567890");
    assert_eq!(number(usize::MAX), usize::MAX.to_string());
    let mut out = b"a".to_vec();
    push_str(&mut out, "bé");
    push_bytes(&mut out, &[0xff]);
    assert_eq!(out, [b'a', b'b', 0xc3, 0xa9, 0xff]);
}

#[test]
fn the_listing_groups_the_files_by_directory() {
    let files = vec![
        loaded("/w/src/b.rs", b"b"),
        loaded("/w/a & b.txt", b"x"),
        loaded("/w/src/a.rs", b"a"),
        loaded("/w/src10/z", b"z"),
        loaded("/w/src2/<y>", b"y"),
        loaded("/other/place/f", b"f"),
        loaded("/top", b"t"),
        loaded("/w/src/", b"no name"),
    ];
    let listing = written(|out| write_matched_dir_list_xml(out, &files, "/w"));
    let expected = "  <matchedFilesDirStructureList>\n\
\x20   <dirEntry>\"/\": [\"top\"]</dirEntry>\n\
\x20   <dirEntry>\"/other/place\": [\"f\"]</dirEntry>\n\
\x20   <dirEntry>\".\": [\"a &amp; b.txt\"]</dirEntry>\n\
\x20   <dirEntry>\"src\": [\"b.rs\", \"a.rs\"]</dirEntry>\n\
\x20   <dirEntry>\"src2\": [\"&lt;y&gt;\"]</dirEntry>\n\
\x20   <dirEntry>\"src10\": [\"z\"]</dirEntry>\n\
\x20 </matchedFilesDirStructureList>\n";
    assert_eq!(listing, expected);
    assert_eq!(collect_names(&files, b"/w/src"), b"\"b.rs\", \"a.rs\"");
    assert_eq!(collect_names(&files, b"/nowhere"), b"");
}

#[test]
fn directories_are_shown_against_the_working_directory() {
    let shown = |dir: &[u8], cwd: &[u8]| written(|out| push_relative_dir(out, dir, cwd));
    assert_eq!(shown(b"/w", b"/w"), ".");
    assert_eq!(shown(b"/w/src/x", b"/w"), "src/x");
    assert_eq!(shown(b"/wide/src", b"/w"), "/wide/src");
    assert_eq!(shown(b"/a", b"/w"), "/a");
    assert_eq!(shown(b"/a/b", b"/"), "a/b");
    assert_eq!(shown(b"/", b"/"), ".");
    assert_eq!(shown(b"/w/a&b", b"/w"), "a&amp;b");
    assert_eq!(shown(b"/w", b""), "/w");
}

#[test]
fn the_document_is_written_behind_what_is_there() {
    let files = vec![loaded("/w/a", b"x")];
    let bare = config(RunArgs { no_metadata: true, no_dir_list: true, ..RunArgs::default() });
    let mut out = b"# head\n".to_vec();
    write_output_to_writer(&bare, &files, None, "/w", &mut out);
    let doc = as_text(out);
    assert!(doc.starts_with("# head\n<?xml version=\"1.0\" encoding=\"UTF-8\"?>\n<concatenation>\n  <fileContents count=\"1\">\n"));
    assert!(doc.ends_with("      <content><![CDATA[\nx]]></content>\n    </file>\n  </fileContents>\n</concatenation>\n"));

    let given = vec![meta("/elsewhere", 3, 9)];
    let xml = written(|out| write_xml_output(&bare, &files, None, Some(&given), "/w", out));
    assert!(xml.contains("  <fileMetadata count=\"1\">\n    <file binary=\"false\">\n      <path>/elsewhere</path>\n      <lines>3</lines>\n"));
    let plain = written(|out| write_text_output(&bare, &files, None, Some(&given), out));
    assert!(plain.starts_with(&format!("{DASHES}# File Metadata (1 files)\n{STARS}1: /elsewhere (lines: 3, chars: 9)\n")));
}

#[test]
fn content_that_is_no_utf8_is_kept_in_the_plain_form_and_replaced_in_the_structured() {
    let file = loaded("/w/a", &[b'a', 0xff, b'\n']);
    assert!(matches!(embed_for_text(false, &file), Embedded::Text(b) if b == [b'a', 0xff, b'\n']));
    assert!(matches!(embed_for_xml(false, &file), Embedded::Text(b) if b == "a\u{fffd}\n".as_bytes()));
    let ctrl = loaded("/w/a", b"a\x1bb]]>c");
    let xml = written(|out| write_file_xml(out, "/w/a", &embed_for_xml(false, &ctrl)));
    assert!(xml.contains("<![CDATA[\na\u{fffd}b]]]]><![CDATA[>c]]></content>"));
}
