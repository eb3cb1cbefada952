//! Writing into a byte buffer: text, numbers, and content made safe for the
//! markup that carries it.

use crate::strings::{chars_of, string_of};
use crate::text::utf8;
use vstd::prelude::*;

verus! {

/// The bytes of a piece of literal text.
pub open spec fn text(s: &str) -> Seq<u8> {
    utf8(s@)
}

/// The decimal digits of a number, without leading zeros.
pub open spec fn decimal(n: nat) -> Seq<u8>
    decreases n,
{
    if n < 10 {
        seq![(48 + n) as u8]
    } else {
        decimal(n / 10).push((48 + n % 10) as u8)
    }
}

/// What stands for a byte in the text of an element: the three marks of the
/// markup are written as entities.
pub open spec fn escaped_byte(b: u8) -> Seq<u8> {
    if b == 38 {
        text("&amp;")
    } else if b == 60 {
        text("&lt;")
    } else if b == 62 {
        text("&gt;")
    } else {
        seq![b]
    }
}

/// A byte string as the text of an element.
pub open spec fn xml_escaped(s: Seq<u8>) -> Seq<u8>
    decreases s.len(),
{
    if s.len() == 0 {
        Seq::empty()
    } else {
        xml_escaped(s.drop_last()) + escaped_byte(s.last())
    }
}

/// The sequence that ends a literal block.
pub open spec fn block_end() -> Seq<u8> {
    seq![93u8, 93u8, 62u8]
}

/// A byte string as the body of a literal block: from left to right, each
/// occurrence of the sequence that would end the block is split, the block
/// is closed inside it and opened again.
pub open spec fn cdata_escaped(s: Seq<u8>) -> Seq<u8>
    decreases s.len(),
{
    if s.len() < 3 {
        s
    } else if s.take(3) == block_end() {
        text("]]]]><![CDATA[>") + cdata_escaped(s.skip(3))
    } else {
        seq![s[0]] + cdata_escaped(s.skip(1))
    }
}

/// The characters that the markup may carry: tab, line feed, carriage
/// return, and everything from the space on but the two non-characters at
/// the end of the basic plane.
pub open spec fn permitted(c: char) -> bool {
    ||| c == '\t'
    ||| c == '\n'
    ||| c == '\r'
    ||| ('\u{20}' <= c && c <= '\u{D7FF}')
    ||| ('\u{E000}' <= c && c <= '\u{FFFD}')
    ||| ('\u{10000}' <= c && c <= '\u{10FFFF}')
}

/// A character, or the replacement character where it is not permitted.
pub open spec fn sanitized_char(c: char) -> char {
    if permitted(c) {
        c
    } else {
        '\u{FFFD}'
    }
}

/// A text with every character that is not permitted replaced.
pub open spec fn sanitized(s: Seq<char>) -> Seq<char> {
    Seq::new(s.len(), |i: int| sanitized_char(s[i]))
}

/// The standard base64 encoding with padding of a byte string, as
/// `base64::engine::general_purpose::STANDARD` writes it.
pub uninterp spec fn base64_standard(bytes: Seq<u8>) -> Seq<u8>;

/// The text that `String::from_utf8_lossy` reads out of a byte string that
/// is not UTF-8: its characters, with the replacement character for what
/// cannot be decoded.
pub uninterp spec fn lossy_text(bytes: Seq<u8>) -> Seq<char>;

/// The text that `String::from_utf8_lossy` reads out of a byte string: the
/// characters that the bytes encode where they are UTF-8, and else its
/// characters with the replacement character for what cannot be decoded.
pub open spec fn utf8_lossy(bytes: Seq<u8>) -> Seq<char> {
    if vstd::utf8::valid_utf8(bytes) {
        vstd::utf8::decode_utf8(bytes)
    } else {
        lossy_text(bytes)
    }
}

/// Calls `encode` of the engine `base64::engine::general_purpose::STANDARD`,
/// which returns the encoding as a string, and hands out its bytes. The call
/// panics only where the length of the encoding does not fit in `usize`,
/// which no slice is long enough for.
#[verifier::external_body]
pub(crate) fn encode_base64(bytes: &[u8]) -> (encoded: Vec<u8>)
    ensures
        encoded@ == base64_standard(bytes@),
{
    base64::Engine::encode(&base64::engine::general_purpose::STANDARD, bytes).into_bytes()
}

/// Calls `String::from_utf8_lossy` and owns the result. Bytes that are
/// UTF-8 give the string that they encode; for other bytes the contract
/// only gives the result its name.
#[verifier::external_body]
pub(crate) fn decode_lossy(bytes: &[u8]) -> (decoded: String)
    ensures
        decoded@ == utf8_lossy(bytes@),
        !vstd::utf8::valid_utf8(bytes@) ==> decoded@ == lossy_text(bytes@),
{
    String::from_utf8_lossy(bytes).into_owned()
}

/// ASCII bytes are decoded one by one: each byte is a character.
pub proof fn lemma_ascii_is_decoded_as_it_is(bytes: Seq<u8>)
    requires
        forall|i: int| 0 <= i < bytes.len() ==> #[trigger] bytes[i] < 128,
    ensures
        utf8_lossy(bytes) == Seq::new(bytes.len(), |i: int| bytes[i] as char),
        utf8_lossy(bytes).len() == bytes.len(),
        utf8(utf8_lossy(bytes)) == bytes,
{
    let chars = Seq::new(bytes.len(), |i: int| bytes[i] as char);
    assert(vstd::utf8::is_ascii_chars(chars));
    vstd::utf8::is_ascii_chars_encode_utf8(chars);
    assert(vstd::utf8::encode_utf8(chars) =~= bytes) by {
        assert forall|i: int| 0 <= i < bytes.len() implies vstd::utf8::encode_utf8(chars)[i]
            == bytes[i] by {
            assert(chars[i] as u8 == vstd::utf8::encode_utf8(chars)[i]);
        }
    }
    vstd::utf8::encode_utf8_valid_utf8(chars);
    vstd::utf8::encode_utf8_decode_utf8(chars);
}

/// The three entities are written in plain letters.
proof fn lemma_entities()
    ensures
        text("&amp;") == seq![38u8, 97u8, 109u8, 112u8, 59u8],
        text("&lt;") == seq![38u8, 108u8, 116u8, 59u8],
        text("&gt;") == seq![38u8, 103u8, 116u8, 59u8],
{
    reveal_strlit("&amp;");
    reveal_strlit("&lt;");
    reveal_strlit("&gt;");
    vstd::utf8::is_ascii_chars_encode_utf8("&amp;"@);
    vstd::utf8::is_ascii_chars_encode_utf8("&lt;"@);
    vstd::utf8::is_ascii_chars_encode_utf8("&gt;"@);
    assert(text("&amp;") =~= seq![38u8, 97u8, 109u8, 112u8, 59u8]);
    assert(text("&lt;") =~= seq![38u8, 108u8, 116u8, 59u8]);
    assert(text("&gt;") =~= seq![38u8, 103u8, 116u8, 59u8]);
}

/// The text of an element never opens or closes a tag: it holds neither of
/// the two angle brackets.
pub proof fn lemma_escaped_holds_no_bracket(s: Seq<u8>)
    ensures
        forall|i: int|
            0 <= i < xml_escaped(s).len() ==> #[trigger] xml_escaped(s)[i] != 60 && xml_escaped(
                s,
            )[i] != 62,
    decreases s.len(),
{
    if s.len() > 0 {
        lemma_escaped_holds_no_bracket(s.drop_last());
        lemma_entities();
        let head = xml_escaped(s.drop_last());
        let tail = escaped_byte(s.last());
        assert forall|i: int| 0 <= i < xml_escaped(s).len() implies #[trigger] xml_escaped(s)[i]
            != 60 && xml_escaped(s)[i] != 62 by {
            if i < head.len() {
                assert(xml_escaped(s)[i] == head[i]);
            } else {
                assert(xml_escaped(s)[i] == tail[i - head.len()]);
            }
        }
    }
}

/// One more piece behind what was written already: the buffer holds
/// `base + done`, and `more` is appended to it.
pub proof fn lemma_step(base: Seq<u8>, done: Seq<u8>, more: Seq<u8>) -> (now: Seq<u8>)
    ensures
        now == done + more,
        (base + done) + more == base + now,
{
    assert((base + done) + more =~= base + (done + more));
    done + more
}

/// Appends a string.
pub fn push_str(out: &mut Vec<u8>, s: &str)
    ensures
        final(out)@ == old(out)@ + text(s),
{
    out.extend_from_slice(s.as_bytes());
}

/// Appends a byte string.
pub fn push_bytes(out: &mut Vec<u8>, bytes: &[u8])
    ensures
        final(out)@ == old(out)@ + bytes@,
{
    out.extend_from_slice(bytes);
}

/// Appends a number in decimal digits.
pub fn push_decimal(out: &mut Vec<u8>, n: usize)
    ensures
        final(out)@ == old(out)@ + decimal(n as nat),
    decreases n,
{
    if n >= 10 {
        push_decimal(out, n / 10);
    }
    let digit: u8 = (n % 10) as u8;
    out.push(48 + digit);
    proof {
        if n >= 10 {
            assert(final(out)@ =~= old(out)@ + decimal((n / 10) as nat).push((48 + n % 10) as u8));
        } else {
            assert(final(out)@ =~= old(out)@ + seq![(48 + n) as u8]);
        }
    }
}

/// Appends a byte string as the text of an element.
pub fn push_xml_escaped(out: &mut Vec<u8>, input: &[u8])
    ensures
        final(out)@ == old(out)@ + xml_escaped(input@),
{
    let mut i: usize = 0;
    assert(input@.take(0) =~= Seq::empty());
    assert(out@ =~= old(out)@ + Seq::empty());
    while i < input.len()
        invariant
            i <= input.len(),
            out@ == old(out)@ + xml_escaped(input@.take(i as int)),
        decreases input.len() - i,
    {
        let b = input[i];
        let ghost before = out@;
        proof {
            let upto = input@.take(i + 1);
            assert(upto.drop_last() =~= input@.take(i as int));
            assert(upto.last() == b);
        }
        if b == 38 {
            push_str(out, "&amp;");
        } else if b == 60 {
            push_str(out, "&lt;");
        } else if b == 62 {
            push_str(out, "&gt;");
        } else {
            out.push(b);
            assert(out@ =~= before + seq![b]);
        }
        assert(out@ =~= old(out)@ + (xml_escaped(input@.take(i as int)) + escaped_byte(b)));
        i += 1;
    }
    assert(input@.take(i as int) =~= input@);
}

/// A string as the text of an element.
pub fn xml_escape_text(input: &str) -> (escaped: Vec<u8>)
    ensures
        escaped@ == xml_escaped(utf8(input@)),
{
    let mut escaped: Vec<u8> = Vec::new();
    push_xml_escaped(&mut escaped, input.as_bytes());
    assert(escaped@ =~= xml_escaped(utf8(input@)));
    escaped
}

/// Appends a byte string as the body of a literal block.
pub fn write_cdata_body(out: &mut Vec<u8>, input: &[u8])
    ensures
        final(out)@ == old(out)@ + cdata_escaped(input@),
{
    let n: usize = input.len();
    let mut i: usize = 0;
    assert(input@.skip(0) =~= input@);
    assert(out@ + cdata_escaped(input@) =~= old(out)@ + cdata_escaped(input@));
    while i < n
        invariant
            i <= n,
            n == input.len(),
            out@ + cdata_escaped(input@.skip(i as int)) == old(out)@ + cdata_escaped(input@),
        decreases n - i,
    {
        let ghost rest = input@.skip(i as int);
        let ghost before = out@;
        if n - i >= 3 && input[i] == 93 && input[i + 1] == 93 && input[i + 2] == 62 {
            proof {
                assert(rest.take(3) =~= block_end());
                assert(rest.skip(3) =~= input@.skip(i + 3));
            }
            push_str(out, "]]]]><![CDATA[>");
            assert(out@ + cdata_escaped(input@.skip(i + 3)) =~= before + cdata_escaped(rest));
            i += 3;
        } else {
            proof {
                if rest.len() >= 3 {
                    assert(rest.take(3)[0] == rest[0] && rest.take(3)[1] == rest[1] && rest.take(
                        3,
                    )[2] == rest[2]);
                    assert(rest.take(3) != block_end());
                    assert(rest.skip(1) =~= input@.skip(i + 1));
                }
            }
            if n - i >= 3 {
                out.push(input[i]);
                assert(out@ + cdata_escaped(input@.skip(i + 1)) =~= before + cdata_escaped(rest));
                i += 1;
            } else {
                push_bytes(out, vstd::slice::slice_subrange(input, i, n));
                proof {
                    assert(input@.subrange(i as int, n as int) =~= rest);
                    assert(input@.skip(n as int) =~= Seq::empty());
                    assert(out@ + cdata_escaped(input@.skip(n as int)) =~= before
                        + cdata_escaped(rest));
                }
                i = n;
            }
        }
    }
    assert(input@.skip(n as int) =~= Seq::empty());
    assert(out@ + cdata_escaped(Seq::empty()) =~= out@);
}

/// Tells whether the markup may carry the character.
pub fn is_permitted(c: char) -> (yes: bool)
    ensures
        yes == permitted(c),
{
    c == '\t' || c == '\n' || c == '\r' || ('\u{20}' <= c && c <= '\u{D7FF}') || ('\u{E000}' <= c
        && c <= '\u{FFFD}') || ('\u{10000}' <= c && c <= '\u{10FFFF}')
}

/// Replaces every character that the markup may not carry by the
/// replacement character.
pub fn sanitize_xml_text(input: &str) -> (clean: String)
    ensures
        clean@ == sanitized(input@),
{
    let chars = chars_of(input);
    let mut clean: Vec<char> = Vec::new();
    let mut i: usize = 0;
    while i < chars.len()
        invariant
            i <= chars.len(),
            clean@.len() == i,
            forall|k: int| 0 <= k < i ==> clean@[k] == sanitized_char(chars@[k]),
        decreases chars.len() - i,
    {
        let c = chars[i];
        if is_permitted(c) {
            clean.push(c);
        } else {
            clean.push('\u{FFFD}');
        }
        i += 1;
    }
    assert(clean@ =~= sanitized(chars@));
    string_of(clean.as_slice())
}

} // verus!
