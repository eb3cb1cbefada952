//! The path of the document where none is given in full: its default name,
//! its extension, and its normal form.

use crate::config::{OutputFormat, RunConfig};
use crate::strings::{chars_of, lower_char, lowered, string_of, to_lower_char};
use vstd::prelude::*;

verus! {

/// Index of the last occurrence of `c` in `s`, or -1 when there is none.
pub open spec fn last_char_index(s: Seq<char>, c: char) -> int
    decreases s.len(),
{
    if s.len() == 0 {
        -1
    } else if s.last() == c {
        s.len() - 1
    } else {
        last_char_index(s.drop_last(), c)
    }
}

/// What follows the last separator of a path.
pub open spec fn last_name(path: Seq<char>) -> Seq<char> {
    path.skip(last_char_index(path, '/') + 1)
}

/// The name of the document that is called after a directory: the name of
/// the directory behind `_concat-`, and `_concat-output` for a directory
/// without a name.
pub open spec fn named_after(dir: Seq<char>) -> Seq<char> {
    if last_name(dir).len() == 0 {
        "_concat-output"@
    } else {
        "_concat-"@ + last_name(dir)
    }
}

/// The name of the document where none is asked for: after the one
/// extension that is asked for; else, in a run without arguments, after the
/// working directory; else after the one directory that is the input; and
/// `_concat-output` in every other case.
pub open spec fn default_name(config: RunConfig, cwd: Seq<char>, sole_dir: Option<Seq<char>>) -> Seq<
    char,
> {
    if config.exts@.len() == 1 {
        "_concat-"@ + config.exts@[0]@
    } else if config.exts@.len() > 1 {
        "_concat-output"@
    } else if !config.had_user_args {
        named_after(cwd)
    } else {
        match sole_dir {
            Some(dir) => named_after(dir),
            None => "_concat-output"@,
        }
    }
}

/// The extension that a format asks for.
pub open spec fn required_ext(format: OutputFormat) -> Seq<char> {
    match format {
        OutputFormat::Xml => "xml"@,
        OutputFormat::Text => "txt"@,
    }
}

/// Where the extension of a path starts: the index of the last dot of its
/// name, unless that dot starts the name or there is none; then -1.
pub open spec fn ext_dot(path: Seq<char>) -> int {
    let dot = last_char_index(last_name(path), '.');
    if dot <= 0 {
        -1
    } else {
        last_char_index(path, '/') + 1 + dot
    }
}

/// The path has the extension, in whatever case.
pub open spec fn has_ext(path: Seq<char>, ext: Seq<char>) -> bool {
    ext_dot(path) >= 0 && lowered(path.skip(ext_dot(path) + 1)) == lowered(ext)
}

/// The path with its extension replaced, or with the extension added where
/// it has none. A path without a name, or whose name is two dots, stays as
/// it is.
pub open spec fn with_ext(path: Seq<char>, ext: Seq<char>) -> Seq<char> {
    if last_name(path).len() == 0 || last_name(path) == seq!['.', '.'] {
        path
    } else if ext_dot(path) >= 0 {
        path.take(ext_dot(path)) + seq!['.'] + ext
    } else {
        path + seq!['.'] + ext
    }
}

/// The path with the extension of the format, which replaces any other.
pub open spec fn with_required_ext(path: Seq<char>, format: OutputFormat) -> Seq<char> {
    if has_ext(path, required_ext(format)) {
        path
    } else {
        with_ext(path, required_ext(format))
    }
}

/// A path made absolute: as it is if it starts at the root, else below the
/// working directory.
pub open spec fn absolute(path: Seq<char>, cwd: Seq<char>) -> Seq<char> {
    if path.len() > 0 && path[0] == '/' {
        path
    } else if cwd.len() > 0 && cwd.last() == '/' {
        cwd + path
    } else {
        cwd + seq!['/'] + path
    }
}

/// The components read so far, with one more taken in: nothing and a single
/// dot change nothing, two dots take the last component away if there is
/// one, and anything else is a new component.
pub open spec fn with_component(stack: Seq<Seq<char>>, piece: Seq<char>) -> Seq<Seq<char>> {
    if piece.len() == 0 || piece == seq!['.'] {
        stack
    } else if piece == seq!['.', '.'] {
        if stack.len() > 0 {
            stack.drop_last()
        } else {
            stack
        }
    } else {
        stack.push(piece)
    }
}

/// The components that reading `path` has completed.
pub open spec fn components_read(path: Seq<char>) -> Seq<Seq<char>>
    decreases path.len(),
{
    if path.len() == 0 {
        Seq::empty()
    } else if path.last() == '/' {
        with_component(components_read(path.drop_last()), piece_read(path.drop_last()))
    } else {
        components_read(path.drop_last())
    }
}

/// The piece that reading `path` has begun and not completed: what follows
/// its last separator.
pub open spec fn piece_read(path: Seq<char>) -> Seq<char>
    decreases path.len(),
{
    if path.len() == 0 {
        Seq::empty()
    } else if path.last() == '/' {
        Seq::empty()
    } else {
        piece_read(path.drop_last()).push(path.last())
    }
}

/// Components with a separator between them.
pub open spec fn joined(components: Seq<Seq<char>>) -> Seq<char>
    decreases components.len(),
{
    if components.len() == 0 {
        Seq::empty()
    } else if components.len() == 1 {
        components[0]
    } else {
        joined(components.drop_last()) + seq!['/'] + components.last()
    }
}

/// The normal form of a path: its components without the single dots, each
/// pair of dots resolved against the component before it, below the root if
/// the path starts there.
pub open spec fn normal_path(path: Seq<char>) -> Seq<char> {
    let components = with_component(components_read(path), piece_read(path));
    if path.len() > 0 && path[0] == '/' {
        seq!['/'] + joined(components)
    } else {
        joined(components)
    }
}

/// The path of the document: the path that was asked for, or the default
/// name; with the extension of the format; made absolute; in normal form.
pub open spec fn output_path(config: RunConfig, cwd: Seq<char>, sole_dir: Option<Seq<char>>) -> Seq<
    char,
> {
    let asked = match config.output {
        Some(path) => path@,
        None => default_name(config, cwd, sole_dir),
    };
    normal_path(absolute(with_required_ext(asked, config.format), cwd))
}

proof fn lemma_last_char_index(s: Seq<char>, c: char, at: int)
    requires
        -1 <= at < s.len(),
        at >= 0 ==> s[at] == c,
        forall|k: int| at < k < s.len() ==> s[k] != c,
    ensures
        last_char_index(s, c) == at,
    decreases s.len(),
{
    if s.len() > 0 && s.last() != c {
        lemma_last_char_index(s.drop_last(), c, at);
    }
}

/// Finds the last occurrence of a character.
pub fn find_last_char(s: &[char], c: char) -> (found: Option<usize>)
    ensures
        match found {
            Some(at) => at == last_char_index(s@, c) && at < s@.len() && at < usize::MAX,
            None => last_char_index(s@, c) == -1,
        },
{
    let mut i: usize = s.len();
    while i > 0
        invariant
            i <= s.len(),
            forall|k: int| i <= k < s.len() ==> s@[k] != c,
        decreases i,
    {
        if s[i - 1] == c {
            proof {
                lemma_last_char_index(s@, c, i - 1);
            }
            return Some(i - 1);
        }
        i -= 1;
    }
    proof {
        lemma_last_char_index(s@, c, -1);
    }
    None
}

/// Where the name of a path starts.
pub fn name_start(path: &[char]) -> (start: usize)
    ensures
        start == last_char_index(path@, '/') + 1,
        start <= path@.len(),
{
    match find_last_char(path, '/') {
        Some(at) => at + 1,
        None => 0,
    }
}

/// Appends the characters of a slice.
pub fn push_chars(out: &mut Vec<char>, more: &[char])
    ensures
        final(out)@ == old(out)@ + more@,
{
    let mut i: usize = 0;
    assert(out@ =~= old(out)@ + more@.take(0));
    while i < more.len()
        invariant
            i <= more.len(),
            out@ == old(out)@ + more@.take(i as int),
        decreases more.len() - i,
    {
        out.push(more[i]);
        assert(out@ =~= old(out)@ + more@.take(i + 1));
        i += 1;
    }
    assert(more@.take(i as int) =~= more@);
}

/// The name of the document that is called after a directory.
pub fn name_after(dir: &str) -> (name: String)
    ensures
        name@ == named_after(dir@),
{
    let chars = chars_of(dir);
    let start = name_start(chars.as_slice());
    if start == chars.len() {
        "_concat-output".to_string()
    } else {
        let base = vstd::slice::slice_subrange(chars.as_slice(), start, chars.len());
        assert(base@ =~= last_name(dir@));
        let mut name = chars_of("_concat-");
        push_chars(&mut name, base);
        string_of(name.as_slice())
    }
}

/// The name of the document where none is asked for. `cwd` is the working
/// directory, and `sole_dir` the input if the inputs are one directory.
pub fn default_output_name(config: &RunConfig, cwd: &str, sole_dir: Option<&str>) -> (name: String)
    ensures
        name@ == default_name(*config, cwd@, crate::text::view_of(sole_dir)),
{
    if config.exts.len() == 1 {
        let mut name = chars_of("_concat-");
        let ext = chars_of(config.exts[0].as_str());
        push_chars(&mut name, ext.as_slice());
        string_of(name.as_slice())
    } else if config.exts.len() > 1 {
        "_concat-output".to_string()
    } else if !config.had_user_args {
        name_after(cwd)
    } else {
        match sole_dir {
            Some(dir) => name_after(dir),
            None => "_concat-output".to_string(),
        }
    }
}

/// The extension that a format asks for.
pub fn required_extension(format: OutputFormat) -> (ext: &'static str)
    ensures
        ext@ == required_ext(format),
{
    match format {
        OutputFormat::Xml => "xml",
        OutputFormat::Text => "txt",
    }
}

/// Where the extension of a path starts, if it has one.
pub fn find_ext_dot(path: &[char]) -> (dot: Option<usize>)
    ensures
        match dot {
            Some(at) => at == ext_dot(path@) && at < path@.len(),
            None => ext_dot(path@) == -1,
        },
{
    let start = name_start(path);
    let name = vstd::slice::slice_subrange(path, start, path.len());
    assert(name@ =~= last_name(path@));
    match find_last_char(name, '.') {
        Some(at) => {
            if at == 0 {
                None
            } else {
                Some(start + at)
            }
        },
        None => None,
    }
}

/// Tells whether two strings of characters are alike but for the case of
/// their ASCII letters.
pub fn same_ignoring_case(a: &[char], b: &[char]) -> (same: bool)
    ensures
        same == (lowered(a@) == lowered(b@)),
{
    if a.len() != b.len() {
        assert(lowered(a@).len() != lowered(b@).len());
        return false;
    }
    let mut i: usize = 0;
    while i < a.len()
        invariant
            i <= a.len(),
            a.len() == b.len(),
            forall|k: int| 0 <= k < i ==> lower_char(a@[k]) == lower_char(b@[k]),
        decreases a.len() - i,
    {
        if to_lower_char(a[i]) != to_lower_char(b[i]) {
            assert(lowered(a@)[i as int] != lowered(b@)[i as int]);
            return false;
        }
        i += 1;
    }
    assert(lowered(a@) =~= lowered(b@));
    true
}

/// Gives a path the extension of the format, in place of any other.
pub fn ensure_extension(path: &str, format: OutputFormat) -> (fixed: String)
    ensures
        fixed@ == with_required_ext(path@, format),
{
    let chars = chars_of(path);
    let ext = chars_of(required_extension(format));
    let dot = find_ext_dot(chars.as_slice());
    let start = name_start(chars.as_slice());
    let n: usize = chars.len();
    let name = vstd::slice::slice_subrange(chars.as_slice(), start, n);
    assert(name@ =~= last_name(path@));
    let keep: usize = match dot {
        Some(at) => {
            let old_ext = vstd::slice::slice_subrange(chars.as_slice(), at + 1, n);
            assert(old_ext@ =~= path@.skip(at + 1));
            if same_ignoring_case(old_ext, ext.as_slice()) {
                return string_of(chars.as_slice());
            }
            at
        },
        None => n,
    };
    if name.len() == 0 || (name.len() == 2 && name[0] == '.' && name[1] == '.') {
        proof {
            if name@.len() == 2 {
                assert(name@ =~= seq!['.', '.']);
            }
        }
        return string_of(chars.as_slice());
    }
    proof {
        if name@ == seq!['.', '.'] {
            assert(name@.len() == 2);
            assert(name@[0] == '.' && name@[1] == '.');
        }
    }
    let mut fixed: Vec<char> = Vec::new();
    push_chars(&mut fixed, vstd::slice::slice_subrange(chars.as_slice(), 0, keep));
    fixed.push('.');
    push_chars(&mut fixed, ext.as_slice());
    proof {
        assert(path@.subrange(0, keep as int) =~= path@.take(keep as int));
        assert(path@.take(n as int) =~= path@);
        assert(fixed@ =~= path@.take(keep as int) + seq!['.'] + ext@);
    }
    string_of(fixed.as_slice())
}

/// Makes a path absolute.
pub fn make_absolute(path: &str, cwd: &str) -> (full: String)
    ensures
        full@ == absolute(path@, cwd@),
{
    let chars = chars_of(path);
    if chars.len() > 0 && chars[0] == '/' {
        return string_of(chars.as_slice());
    }
    let mut full = chars_of(cwd);
    if !(full.len() > 0 && full[full.len() - 1] == '/') {
        full.push('/');
    }
    push_chars(&mut full, chars.as_slice());
    proof {
        if cwd@.len() > 0 && cwd@.last() == '/' {
            assert(full@ =~= cwd@ + path@);
        } else {
            assert(full@ =~= cwd@ + seq!['/'] + path@);
        }
    }
    string_of(full.as_slice())
}

/// Takes one more component in.
fn take_component(stack: &mut Vec<Vec<char>>, piece: Vec<char>)
    ensures
        views_of(final(stack)@) == with_component(views_of(old(stack)@), piece@),
{
    let ghost before = views_of(stack@);
    if piece.len() == 0 || (piece.len() == 1 && piece[0] == '.') {
        proof {
            if piece@.len() == 1 {
                assert(piece@ =~= seq!['.']);
            }
        }
    } else if piece.len() == 2 && piece[0] == '.' && piece[1] == '.' {
        assert(piece@ =~= seq!['.', '.']);
        if stack.len() > 0 {
            stack.pop();
            assert(views_of(stack@) =~= before.drop_last());
        }
    } else {
        proof {
            if piece@ == seq!['.'] {
                assert(piece@.len() == 1 && piece@[0] == '.');
            }
            if piece@ == seq!['.', '.'] {
                assert(piece@.len() == 2 && piece@[0] == '.' && piece@[1] == '.');
            }
        }
        stack.push(piece);
        assert(views_of(stack@) =~= before.push(piece@));
    }
}

/// The characters of each component of a list.
pub open spec fn views_of(components: Seq<Vec<char>>) -> Seq<Seq<char>> {
    components.map_values(|c: Vec<char>| c@)
}

/// Brings a path into its normal form, without looking at the file system.
pub fn normalize_path(path: &str) -> (normal: String)
    ensures
        normal@ == normal_path(path@),
{
    let chars = chars_of(path);
    let n: usize = chars.len();
    let mut stack: Vec<Vec<char>> = Vec::new();
    let mut piece: Vec<char> = Vec::new();
    let mut i: usize = 0;
    assert(chars@.take(0) =~= Seq::empty());
    assert(views_of(stack@) =~= Seq::empty());
    while i < n
        invariant
            i <= n,
            n == chars@.len(),
            views_of(stack@) == components_read(chars@.take(i as int)),
            piece@ == piece_read(chars@.take(i as int)),
        decreases n - i,
    {
        proof {
            let upto = chars@.take(i + 1);
            assert(upto.drop_last() =~= chars@.take(i as int));
            assert(upto.last() == chars@[i as int]);
        }
        if chars[i] == '/' {
            let mut done: Vec<char> = Vec::new();
            std::mem::swap(&mut piece, &mut done);
            take_component(&mut stack, done);
        } else {
            piece.push(chars[i]);
        }
        i += 1;
    }
    assert(chars@.take(i as int) =~= chars@);
    take_component(&mut stack, piece);
    let mut normal: Vec<char> = Vec::new();
    if n > 0 && chars[0] == '/' {
        normal.push('/');
    }
    let ghost head = normal@;
    let mut j: usize = 0;
    assert(views_of(stack@).take(0) =~= Seq::empty());
    assert(normal@ =~= head + Seq::empty());
    while j < stack.len()
        invariant
            j <= stack.len(),
            normal@ == head + joined(views_of(stack@).take(j as int)),
        decreases stack.len() - j,
    {
        let ghost before = normal@;
        proof {
            let upto = views_of(stack@).take(j + 1);
            assert(upto.drop_last() =~= views_of(stack@).take(j as int));
            assert(upto.last() == stack@[j as int]@);
            if j > 0 {
                assert(upto.len() > 1);
            } else {
                assert(upto[0] == stack@[0]@);
            }
        }
        if j > 0 {
            normal.push('/');
        }
        push_chars(&mut normal, stack[j].as_slice());
        proof {
            let earlier = joined(views_of(stack@).take(j as int));
            if j > 0 {
                assert(normal@ =~= head + (earlier + seq!['/'] + stack@[j as int]@));
            } else {
                assert(earlier =~= Seq::<char>::empty());
                assert(normal@ =~= head + stack@[0]@);
            }
        }
        j += 1;
    }
    assert(views_of(stack@).take(j as int) =~= views_of(stack@));
    proof {
        if n > 0 && chars@[0] == '/' {
            assert(head =~= seq!['/']);
        } else {
            assert(head =~= Seq::<char>::empty());
            assert(normal@ =~= joined(views_of(stack@)));
        }
    }
    string_of(normal.as_slice())
}

/// The path of the document. `cwd` is the working directory, and `sole_dir`
/// the input if the inputs are one directory.
pub fn resolve_output_path(config: &RunConfig, cwd: &str, sole_dir: Option<&str>) -> (path: String)
    ensures
        path@ == output_path(*config, cwd@, crate::text::view_of(sole_dir)),
{
    let asked = match &config.output {
        Some(path) => path.clone(),
        None => default_output_name(config, cwd, sole_dir),
    };
    let fixed = ensure_extension(asked.as_str(), config.format);
    let full = make_absolute(fixed.as_str(), cwd);
    normalize_path(full.as_str())
}

} // verus!
