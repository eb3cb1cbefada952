//! Text/binary classification by NUL-byte sniffing.

use vstd::prelude::*;

verus! {

/// Number of leading bytes of a file that the admission gate inspects.
pub const SAMPLE_WINDOW: usize = 8192;

/// A buffer reads as text when it is non-empty and holds no NUL byte.
pub open spec fn is_text(bytes: Seq<u8>) -> bool {
    bytes.len() > 0 && forall|i: int| 0 <= i < bytes.len() ==> bytes[i] != 0u8
}

/// The part of a buffer that the admission gate looks at.
pub open spec fn sample_of(bytes: Seq<u8>) -> Seq<u8> {
    if bytes.len() <= SAMPLE_WINDOW {
        bytes
    } else {
        bytes.take(SAMPLE_WINDOW as int)
    }
}

/// Classifies a whole in-memory buffer.
pub fn bytes_are_probably_text(bytes: &[u8]) -> (text: bool)
    ensures
        text == is_text(bytes@),
{
    if bytes.len() == 0 {
        return false;
    }
    let mut i: usize = 0;
    while i < bytes.len()
        invariant
            i <= bytes.len(),
            forall|j: int| 0 <= j < i ==> bytes@[j] != 0u8,
        decreases bytes.len() - i,
    {
        if bytes[i] == 0 {
            return false;
        }
        i += 1;
    }
    true
}

/// Classifies a file by its leading bytes: only the first `SAMPLE_WINDOW`
/// bytes of `head` are inspected, so a caller may pass more than was asked.
pub fn is_probably_text(head: &[u8]) -> (text: bool)
    ensures
        text == is_text(sample_of(head@)),
{
    if head.len() <= SAMPLE_WINDOW {
        bytes_are_probably_text(head)
    } else {
        let window = vstd::slice::slice_subrange(head, 0, SAMPLE_WINDOW);
        assert(window@ =~= head@.take(SAMPLE_WINDOW as int));
        bytes_are_probably_text(window)
    }
}

/// A NUL byte anywhere in a buffer makes it binary.
pub proof fn lemma_nul_is_binary(bytes: Seq<u8>, at: int)
    requires
        0 <= at < bytes.len(),
        bytes[at] == 0u8,
    ensures
        !is_text(bytes),
{
}

/// The empty buffer is binary.
pub proof fn lemma_empty_is_binary()
    ensures
        !is_text(Seq::<u8>::empty()),
{
}

/// A buffer that holds at least one byte, and only printable ASCII, is text.
pub proof fn lemma_printable_is_text(bytes: Seq<u8>)
    requires
        bytes.len() > 0,
        forall|i: int| 0 <= i < bytes.len() ==> 32 <= #[trigger] bytes[i] <= 126,
    ensures
        is_text(bytes),
{
}

/// The two depths of sampling agree on what is text: a buffer that is text
/// as a whole is text by its leading bytes, and a buffer no longer than the
/// window is judged alike both ways.
pub proof fn lemma_sample_agrees(bytes: Seq<u8>)
    ensures
        is_text(bytes) ==> is_text(sample_of(bytes)),
        bytes.len() <= SAMPLE_WINDOW ==> is_text(sample_of(bytes)) == is_text(bytes),
{
    if is_text(bytes) && bytes.len() > SAMPLE_WINDOW {
        let head = bytes.take(SAMPLE_WINDOW as int);
        assert forall|i: int| 0 <= i < head.len() implies head[i] != 0u8 by {
            assert(head[i] == bytes[i]);
        }
    }
}

} // verus!
