//! Strings read character by character: trimming, case folding and the
//! marks that make a pattern a glob.

use vstd::prelude::*;
use vstd::std_specs::iter::IteratorSpec;

verus! {

/// `String::push` appends one character to the string.
pub assume_specification[ String::push ](s: &mut String, c: char)
    ensures
        final(s)@ == old(s)@.push(c),
;

/// The whitespace of ASCII: the space and the characters from the tab to
/// the carriage return.
pub open spec fn ascii_whitespace(c: char) -> bool {
    c == ' ' || ('\t' <= c && c <= '\r')
}

/// Whether `char::is_whitespace` holds of a character beyond ASCII: whether
/// it has the Unicode property White_Space.
pub uninterp spec fn wide_whitespace(c: char) -> bool;

/// Whether `char::is_whitespace` holds of a character.
pub open spec fn whitespace(c: char) -> bool {
    if c <= '\u{7f}' {
        ascii_whitespace(c)
    } else {
        wide_whitespace(c)
    }
}

/// Calls `char::is_whitespace`, which tells whether a character has the
/// Unicode property White_Space. Within ASCII these are the space and the
/// characters from the tab to the carriage return. Beyond ASCII the property
/// is a table of the Unicode standard, so the contract only gives the
/// answer its name.
#[verifier::external_body]
fn char_is_whitespace(c: char) -> (w: bool)
    ensures
        w == whitespace(c),
        c > '\u{7f}' ==> w == wide_whitespace(c),
{
    c.is_whitespace()
}

/// Number of whitespace characters at the front of `s`.
pub open spec fn leading_whitespace(s: Seq<char>) -> nat
    decreases s.len(),
{
    if s.len() > 0 && whitespace(s[0]) {
        1 + leading_whitespace(s.skip(1))
    } else {
        0
    }
}

/// Number of whitespace characters at the end of `s`.
pub open spec fn trailing_whitespace(s: Seq<char>) -> nat
    decreases s.len(),
{
    if s.len() > 0 && whitespace(s.last()) {
        1 + trailing_whitespace(s.drop_last())
    } else {
        0
    }
}

/// `s` without the whitespace at its two ends.
pub open spec fn trimmed(s: Seq<char>) -> Seq<char> {
    if leading_whitespace(s) == s.len() {
        Seq::empty()
    } else {
        s.subrange(leading_whitespace(s) as int, s.len() - trailing_whitespace(s))
    }
}

/// Number of occurrences of `c` at the front of `s`.
pub open spec fn leading_run(s: Seq<char>, c: char) -> nat
    decreases s.len(),
{
    if s.len() > 0 && s[0] == c {
        1 + leading_run(s.skip(1), c)
    } else {
        0
    }
}

/// `s` without the occurrences of `c` at its front.
pub open spec fn without_leading(s: Seq<char>, c: char) -> Seq<char> {
    s.skip(leading_run(s, c) as int)
}

/// The ASCII lower-case form of a character.
pub open spec fn lower_char(c: char) -> char {
    if 'A' <= c && c <= 'Z' {
        ((c as u8) + 32) as char
    } else {
        c
    }
}

/// The ASCII lower-case form of a string.
pub open spec fn lowered(s: Seq<char>) -> Seq<char> {
    Seq::new(s.len(), |i: int| lower_char(s[i]))
}

/// The characters of a string, one by one.
pub fn chars_of(s: &str) -> (chars: Vec<char>)
    ensures
        chars@ == s@,
{
    let mut chars: Vec<char> = Vec::new();
    let mut rest = s.chars();
    loop
        invariant
            chars@.len() <= s@.len(),
            rest.remaining() == s@.skip(chars@.len() as int),
            chars@ == s@.take(chars@.len() as int),
        decreases s@.len() - chars@.len(),
    {
        let ghost before = chars@;
        match rest.next() {
            Some(c) => {
                chars.push(c);
                assert(chars@ =~= s@.take(before.len() as int + 1));
            },
            None => {
                assert(s@.take(chars@.len() as int) =~= s@);
                return chars;
            },
        }
    }
}

/// The string that a slice of characters spells.
pub fn string_of(chars: &[char]) -> (s: String)
    ensures
        s@ == chars@,
{
    let mut s = String::new();
    let mut i: usize = 0;
    while i < chars.len()
        invariant
            i <= chars.len(),
            s@ == chars@.take(i as int),
        decreases chars.len() - i,
    {
        s.push(chars[i]);
        assert(chars@.take(i + 1) =~= chars@.take(i as int).push(chars@[i as int]));
        i += 1;
    }
    assert(chars@.take(i as int) =~= chars@);
    s
}

/// The ASCII lower-case form of a character.
pub fn to_lower_char(c: char) -> (l: char)
    ensures
        l == lower_char(c),
{
    if 'A' <= c && c <= 'Z' {
        ((c as u8) + 32) as char
    } else {
        c
    }
}

proof fn lemma_leading_whitespace(s: Seq<char>, n: int)
    requires
        0 <= n <= s.len(),
        forall|k: int| 0 <= k < n ==> whitespace(#[trigger] s[k]),
        n == s.len() || !whitespace(s[n]),
    ensures
        leading_whitespace(s) == n,
    decreases n,
{
    if n > 0 {
        let t = s.skip(1);
        assert forall|k: int| 0 <= k < n - 1 implies whitespace(#[trigger] t[k]) by {
            assert(t[k] == s[k + 1]);
        }
        if n < s.len() {
            assert(t[n - 1] == s[n]);
        }
        lemma_leading_whitespace(t, n - 1);
    }
}

proof fn lemma_trailing_whitespace(s: Seq<char>, n: int)
    requires
        0 <= n <= s.len(),
        forall|k: int| s.len() - n <= k < s.len() ==> whitespace(#[trigger] s[k]),
        n == s.len() || !whitespace(s[s.len() - n - 1]),
    ensures
        trailing_whitespace(s) == n,
    decreases n,
{
    if n > 0 {
        let t = s.drop_last();
        assert forall|k: int| t.len() - (n - 1) <= k < t.len() implies whitespace(
            #[trigger] t[k],
        ) by {
            assert(t[k] == s[k]);
        }
        lemma_trailing_whitespace(t, n - 1);
    }
}

proof fn lemma_leading_run(s: Seq<char>, c: char, n: int)
    requires
        0 <= n <= s.len(),
        forall|k: int| 0 <= k < n ==> #[trigger] s[k] == c,
        n == s.len() || s[n] != c,
    ensures
        leading_run(s, c) == n,
    decreases n,
{
    if n > 0 {
        let t = s.skip(1);
        assert forall|k: int| 0 <= k < n - 1 implies #[trigger] t[k] == c by {
            assert(t[k] == s[k + 1]);
        }
        if n < s.len() {
            assert(t[n - 1] == s[n]);
        }
        lemma_leading_run(t, c, n - 1);
    }
}

/// The characters of `s` between its leading and its trailing whitespace.
pub fn trim_chars(s: &[char]) -> (t: &[char])
    ensures
        t@ == trimmed(s@),
{
    let n: usize = s.len();
    let mut start: usize = 0;
    while start < n && char_is_whitespace(s[start])
        invariant
            n == s.len(),
            start <= n,
            forall|k: int| 0 <= k < start ==> whitespace(#[trigger] s@[k]),
        decreases n - start,
    {
        start += 1;
    }
    proof {
        lemma_leading_whitespace(s@, start as int);
    }
    if start == n {
        return vstd::slice::slice_subrange(s, 0, 0);
    }
    let mut end: usize = n;
    while end > start && char_is_whitespace(s[end - 1])
        invariant
            n == s.len(),
            start <= end <= n,
            start < n,
            !whitespace(s@[start as int]),
            forall|k: int| end <= k < n ==> whitespace(#[trigger] s@[k]),
        decreases end,
    {
        end -= 1;
    }
    proof {
        lemma_trailing_whitespace(s@, n - end);
    }
    vstd::slice::slice_subrange(s, start, end)
}

/// The characters of `s` after the occurrences of `c` at its front.
pub fn skip_leading(s: &[char], c: char) -> (t: &[char])
    ensures
        t@ == without_leading(s@, c),
{
    let n: usize = s.len();
    let mut start: usize = 0;
    while start < n && s[start] == c
        invariant
            n == s.len(),
            start <= n,
            forall|k: int| 0 <= k < start ==> #[trigger] s@[k] == c,
        decreases n - start,
    {
        start += 1;
    }
    proof {
        lemma_leading_run(s@, c, start as int);
    }
    vstd::slice::slice_subrange(s, start, n)
}

/// Tells whether the character `c` occurs in `s`.
pub fn contains_char(s: &[char], c: char) -> (yes: bool)
    ensures
        yes == s@.contains(c),
{
    let mut i: usize = 0;
    while i < s.len()
        invariant
            i <= s.len(),
            forall|k: int| 0 <= k < i ==> s@[k] != c,
        decreases s.len() - i,
    {
        if s[i] == c {
            return true;
        }
        i += 1;
    }
    false
}

} // verus!
