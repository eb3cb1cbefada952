//! What the housekeeping before a run looks for: earlier documents and the
//! caches that the Python interpreter leaves behind.

use crate::encode::text;
use crate::paths::{base_name, bytes_equal, extension, file_name, find_last, occurs_at, starts_with};
use crate::text::utf8;
use vstd::prelude::*;

verus! {

/// The name of an earlier document starts with `_concat-`.
pub open spec fn concat_output_name(name: Seq<u8>) -> bool {
    occurs_at(name, text("_concat-"), 0)
}

/// A cache directory of the Python interpreter is named `__pycache__`.
pub open spec fn pycache_name(name: Seq<u8>) -> bool {
    name == text("__pycache__")
}

/// A compiled Python file has the extension `pyc`.
pub open spec fn pyc_path(path: Seq<u8>) -> bool {
    extension(path) == text("pyc")
}

/// Tells whether a path names an earlier document.
pub fn is_concat_output(path: &str) -> (yes: bool)
    ensures
        yes == concat_output_name(base_name(utf8(path@))),
{
    starts_with(file_name(path.as_bytes()), "_concat-".as_bytes())
}

/// Tells whether a path names a cache directory of the Python interpreter.
pub fn is_pycache_dir(path: &str) -> (yes: bool)
    ensures
        yes == pycache_name(base_name(utf8(path@))),
{
    bytes_equal(file_name(path.as_bytes()), "__pycache__".as_bytes())
}

/// Tells whether a path names a compiled Python file.
pub fn is_pyc_file(path: &str) -> (yes: bool)
    ensures
        yes == pyc_path(utf8(path@)),
{
    let name = file_name(path.as_bytes());
    let end: usize = name.len();
    match find_last(name, crate::paths::DOT) {
        Some(at) => {
            if at == 0 {
                assert(text("pyc").len() == 3) by {
                    lemma_pyc_len();
                }
                false
            } else {
                let ext = vstd::slice::slice_subrange(name, at + 1, end);
                assert(ext@ =~= name@.skip(at + 1));
                bytes_equal(ext, "pyc".as_bytes())
            }
        },
        None => {
            assert(text("pyc").len() == 3) by {
                lemma_pyc_len();
            }
            false
        },
    }
}

proof fn lemma_pyc_len()
    ensures
        text("pyc").len() == 3,
{
    reveal_strlit("pyc");
    vstd::utf8::is_ascii_chars_encode_utf8("pyc"@);
}

} // verus!
