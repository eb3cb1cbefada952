//! What is put into a literal block comes out of it again: a reader that
//! takes a block to end at the first end mark, and goes on where a block is
//! opened right behind one that ended, finds the content as it was.

use crate::encode::{block_end, cdata_escaped, text};
use vstd::prelude::*;

verus! {

/// The sequence that opens a literal block: `<![CDATA[`.
pub open spec fn block_start() -> Seq<u8> {
    seq![60u8, 33u8, 91u8, 67u8, 68u8, 65u8, 84u8, 65u8, 91u8]
}

/// `t` starts with `prefix`.
pub open spec fn begins_with(t: Seq<u8>, prefix: Seq<u8>) -> bool {
    t.len() >= prefix.len() && t.take(prefix.len() as int) == prefix
}

/// Where the first end mark starts in `t`; the length of `t` if it holds
/// none.
pub open spec fn end_at(t: Seq<u8>) -> int
    decreases t.len(),
{
    if t.len() < 3 {
        t.len() as int
    } else if t.take(3) == block_end() {
        0
    } else {
        1 + end_at(t.skip(1))
    }
}

/// The text that a reader finds in literal blocks that follow each other
/// without a gap, when `t` is what follows the opening of the first: the
/// text up to the first end mark, and, where a block is opened right behind
/// it, the text of the blocks from there on.
pub open spec fn blocks_text(t: Seq<u8>) -> Seq<u8>
    decreases t.len(),
{
    let end = end_at(t);
    if 0 <= end && end + 3 <= t.len() && begins_with(t.skip(end + 3), block_start()) {
        t.take(end) + blocks_text(t.skip(end + 12))
    } else {
        t.take(end)
    }
}

/// The bytes of the mark that splits an end mark: two brackets, the end
/// mark, the opening of a block, and the angle bracket.
proof fn lemma_split_mark()
    ensures
        text("]]]]><![CDATA[>") == seq![93u8, 93u8] + block_end() + block_start() + seq![62u8],
{
    reveal_strlit("]]]]><![CDATA[>");
    vstd::utf8::is_ascii_chars_encode_utf8("]]]]><![CDATA[>"@);
    assert(text("]]]]><![CDATA[>") =~= seq![93u8, 93u8] + block_end() + block_start() + seq![
        62u8,
    ]);
}

proof fn lemma_end_at_bounds(t: Seq<u8>)
    ensures
        0 <= end_at(t) <= t.len(),
    decreases t.len(),
{
    if t.len() >= 3 && t.take(3) != block_end() {
        lemma_end_at_bounds(t.skip(1));
    }
}

/// What is written for a content is no shorter than the content and starts
/// with the same two bytes.
proof fn lemma_escaped_front(s: Seq<u8>)
    ensures
        cdata_escaped(s).len() >= s.len(),
        s.len() >= 1 ==> cdata_escaped(s)[0] == s[0],
        s.len() >= 2 ==> cdata_escaped(s)[1] == s[1],
    decreases s.len(),
{
    if s.len() >= 3 {
        if s.take(3) == block_end() {
            lemma_split_mark();
            lemma_escaped_front(s.skip(3));
            assert(s[0] == s.take(3)[0] && s[1] == s.take(3)[1]);
        } else {
            lemma_escaped_front(s.skip(1));
            assert(s.skip(1)[0] == s[1]);
        }
    }
}

/// A byte with which no end mark starts is read as it is.
proof fn lemma_read_past(b: u8, x: Seq<u8>)
    requires
        x.len() >= 2,
        (seq![b] + x).take(3) != block_end(),
    ensures
        blocks_text(seq![b] + x) == seq![b] + blocks_text(x),
{
    let t = seq![b] + x;
    assert(t.skip(1) =~= x);
    lemma_end_at_bounds(x);
    let end = end_at(x);
    assert(end_at(t) == 1 + end);
    assert(t.take(1 + end) =~= seq![b] + x.take(end));
    if end + 3 <= x.len() {
        assert(t.skip(1 + end + 3) =~= x.skip(end + 3));
    }
    if end + 3 <= x.len() && begins_with(x.skip(end + 3), block_start()) {
        assert(t.skip(1 + end + 12) =~= x.skip(end + 12));
        assert(blocks_text(t) == t.take(1 + end) + blocks_text(t.skip(1 + end + 12)));
        assert(blocks_text(t) =~= seq![b] + (x.take(end) + blocks_text(x.skip(end + 12))));
    } else {
        assert(blocks_text(t) == t.take(1 + end));
    }
}

/// A content too short to hold an end mark is read up to the end mark
/// behind it.
proof fn lemma_short_content(s: Seq<u8>, tail: Seq<u8>)
    requires
        s.len() < 3,
        !begins_with(tail, block_start()),
    ensures
        blocks_text(s + block_end() + tail) == s,
{
    let t = s + block_end() + tail;
    let n = s.len() as int;
    assert(t.skip(n).take(3) =~= block_end());
    assert(end_at(t.skip(n)) == 0);
    if n == 0 {
        assert(t.skip(0) =~= t);
    } else if n == 1 {
        assert(t.take(3)[2] == 93u8);
        assert(end_at(t) == 1 + end_at(t.skip(1)));
    } else {
        assert(t.take(3)[2] == 93u8);
        assert(t.skip(1).take(3)[2] == 93u8);
        assert(t.skip(1).skip(1) =~= t.skip(2));
        assert(end_at(t.skip(1)) == 1 + end_at(t.skip(2)));
        assert(end_at(t) == 1 + end_at(t.skip(1)));
    }
    assert(end_at(t) == n);
    assert(t.skip(n + 3) =~= tail);
    assert(t.take(n) =~= s);
}

/// Behind the mark that splits an end mark, reading goes on in a new block
/// whose text starts with the angle bracket.
proof fn lemma_split_is_read(y: Seq<u8>)
    requires
        y.len() >= 2,
    ensures
        blocks_text(text("]]]]><![CDATA[>") + y) == block_end() + blocks_text(y),
{
    lemma_split_mark();
    let t = text("]]]]><![CDATA[>") + y;
    assert(t.take(3)[2] == 93u8);
    assert(t.skip(1).take(3)[2] == 93u8);
    assert(t.skip(1).skip(1) =~= t.skip(2));
    assert(t.skip(2).take(3) =~= block_end());
    assert(end_at(t.skip(2)) == 0);
    assert(end_at(t.skip(1)) == 1 + end_at(t.skip(2)));
    assert(end_at(t) == 1 + end_at(t.skip(1)));
    assert(t.skip(5).take(9) =~= block_start());
    assert(t.skip(14) =~= seq![62u8] + y);
    assert(blocks_text(t) == t.take(2) + blocks_text(t.skip(14)));
    assert((seq![62u8] + y).take(3)[0] == 62u8);
    lemma_read_past(62u8, y);
    assert(t.take(2) + (seq![62u8] + blocks_text(y)) =~= block_end() + blocks_text(y));
}

/// A literal block gives its content back. Where the body of a block is
/// what `cdata_escaped` makes of a content, followed by the end mark and by
/// anything that does not open a block again, a reader finds the content,
/// whatever bytes it holds.
pub proof fn lemma_block_gives_content_back(content: Seq<u8>, tail: Seq<u8>)
    requires
        !begins_with(tail, block_start()),
    ensures
        blocks_text(cdata_escaped(content) + block_end() + tail) == content,
    decreases content.len(),
{
    let s = content;
    if s.len() < 3 {
        lemma_short_content(s, tail);
    } else if s.take(3) == block_end() {
        let rest = s.skip(3);
        let y = cdata_escaped(rest) + block_end() + tail;
        lemma_block_gives_content_back(rest, tail);
        lemma_split_is_read(y);
        assert(cdata_escaped(s) + block_end() + tail =~= text("]]]]><![CDATA[>") + y);
        assert(s =~= s.take(3) + rest);
    } else {
        let rest = s.skip(1);
        let x = cdata_escaped(rest) + block_end() + tail;
        lemma_block_gives_content_back(rest, tail);
        lemma_escaped_front(rest);
        assert(cdata_escaped(s) + block_end() + tail =~= seq![s[0]] + x);
        let front = (seq![s[0]] + x).take(3);
        assert(front[0] == s[0] && front[1] == s[1] && front[2] == s[2]);
        assert(front =~= s.take(3));
        lemma_read_past(s[0], x);
        assert(seq![s[0]] + rest =~= s);
    }
}

/// The same of a block as the document writes it, with a line feed between
/// the opening of the block and the content: a reader finds the line feed
/// and the content.
pub proof fn lemma_written_block_gives_content_back(content: Seq<u8>, tail: Seq<u8>)
    requires
        !begins_with(tail, block_start()),
    ensures
        blocks_text(seq![10u8] + (cdata_escaped(content) + block_end() + tail)) == seq![10u8]
            + content,
{
    let x = cdata_escaped(content) + block_end() + tail;
    lemma_block_gives_content_back(content, tail);
    assert((seq![10u8] + x).take(3)[0] == 10u8);
    lemma_read_past(10u8, x);
}

} // verus!
