//! Version-aware ordering of paths: digit runs compare by value, the text
//! between them byte by byte.

use crate::text::utf8;
use std::cmp::Ordering;
use vstd::prelude::*;

verus! {

/// An ASCII decimal digit.
pub open spec fn is_digit(b: u8) -> bool {
    48 <= b && b <= 57
}

/// Length of the maximal run at the front of `s` whose bytes are all digits
/// or all non-digits; 0 only for the empty sequence.
pub open spec fn run_len(s: Seq<u8>) -> nat
    decreases s.len(),
{
    if s.len() == 0 {
        0
    } else if s.len() == 1 || is_digit(s[1]) != is_digit(s[0]) {
        1
    } else {
        1 + run_len(s.skip(1))
    }
}

/// The first segment of `s`.
pub open spec fn first_run(s: Seq<u8>) -> Seq<u8> {
    s.take(run_len(s) as int)
}

/// What follows the first segment of `s`.
pub open spec fn after_run(s: Seq<u8>) -> Seq<u8> {
    s.skip(run_len(s) as int)
}

/// The number that a sequence of decimal digits writes.
pub open spec fn decimal_value(digits: Seq<u8>) -> nat
    decreases digits.len(),
{
    if digits.len() == 0 {
        0
    } else {
        decimal_value(digits.drop_last()) * 10 + (digits.last() - 48) as nat
    }
}

/// The magnitude by which a digit run is ordered: its decimal value, or 0
/// when that value does not fit in 128 bits.
pub open spec fn run_value(digits: Seq<u8>) -> nat {
    if decimal_value(digits) <= u128::MAX {
        decimal_value(digits)
    } else {
        0
    }
}

/// -1, 0 or 1 as `x` is below, equal to or above `y`.
pub open spec fn sign_of(x: int, y: int) -> int {
    if x < y {
        -1
    } else if x == y {
        0
    } else {
        1
    }
}

/// Lexicographic order of byte sequences: the first difference decides, and
/// a proper prefix comes first.
pub open spec fn lex_order(x: Seq<u8>, y: Seq<u8>) -> int
    decreases x.len(),
{
    if x.len() == 0 && y.len() == 0 {
        0
    } else if x.len() == 0 {
        -1
    } else if y.len() == 0 {
        1
    } else if x[0] != y[0] {
        sign_of(x[0] as int, y[0] as int)
    } else {
        lex_order(x.skip(1), y.skip(1))
    }
}

/// Order of two non-empty segments: text before digits, text by its bytes,
/// digits by their magnitude.
pub open spec fn segment_order(x: Seq<u8>, y: Seq<u8>) -> int {
    if is_digit(x[0]) && is_digit(y[0]) {
        sign_of(run_value(x) as int, run_value(y) as int)
    } else if !is_digit(x[0]) && !is_digit(y[0]) {
        lex_order(x, y)
    } else if !is_digit(x[0]) {
        -1
    } else {
        1
    }
}

/// The version-aware order of two paths, as -1, 0 or 1: segments are compared
/// in turn, the first difference decides, and the path that runs out of
/// segments first comes first.
pub open spec fn path_order(a: Seq<u8>, b: Seq<u8>) -> int
    decreases a.len(),
{
    if a.len() == 0 && b.len() == 0 {
        0
    } else if a.len() == 0 {
        -1
    } else if b.len() == 0 {
        1
    } else if segment_order(first_run(a), first_run(b)) != 0 {
        segment_order(first_run(a), first_run(b))
    } else {
        proof {
            lemma_run_len_bounds(a);
        }
        path_order(after_run(a), after_run(b))
    }
}

/// `a` comes strictly before `b`.
pub open spec fn precedes(a: Seq<u8>, b: Seq<u8>) -> bool {
    path_order(a, b) < 0
}

/// `a` and `b` hold the same place in the order.
pub open spec fn same_rank(a: Seq<u8>, b: Seq<u8>) -> bool {
    path_order(a, b) == 0
}

/// The `Ordering` that stands for -1, 0 or 1.
pub open spec fn ordering_of(c: int) -> Ordering {
    if c < 0 {
        Ordering::Less
    } else if c == 0 {
        Ordering::Equal
    } else {
        Ordering::Greater
    }
}

/// A byte is one of the ten decimal digits.
pub fn byte_is_digit(b: u8) -> (d: bool)
    ensures
        d == is_digit(b),
{
    48 <= b && b <= 57
}

/// One segment of a path.
#[derive(Debug)]
pub enum Segment<'a> {
    /// A maximal run of non-digit bytes.
    Text(&'a [u8]),
    /// The magnitude of a maximal run of digits.
    Number(u128),
}

impl<'a> Segment<'a> {
    /// This segment stands for the run `run`.
    pub open spec fn stands_for(&self, run: Seq<u8>) -> bool {
        match *self {
            Segment::Text(bytes) => run.len() > 0 && !is_digit(run[0]) && bytes@ == run,
            Segment::Number(value) => run.len() > 0 && is_digit(run[0]) && value == run_value(run),
        }
    }
}

/// Walks over the segments of a path from left to right.
pub struct Segments<'a> {
    input: &'a [u8],
    pos: usize,
}

impl<'a> Segments<'a> {
    #[verifier::type_invariant]
    spec fn in_bounds(&self) -> bool {
        self.pos <= self.input@.len()
    }

    /// The bytes that have not been handed out yet.
    pub closed spec fn remaining(&self) -> Seq<u8> {
        self.input@.skip(self.pos as int)
    }

    /// Starts at the front of `input`.
    pub fn new(input: &'a str) -> (segments: Self)
        ensures
            segments.remaining() == utf8(input@),
    {
        Segments::over(input.as_bytes())
    }

    /// Starts at the front of a path given as bytes.
    pub fn over(bytes: &'a [u8]) -> (segments: Self)
        ensures
            segments.remaining() == bytes@,
    {
        assert(bytes@.skip(0) =~= bytes@);
        Segments { input: bytes, pos: 0 }
    }

    /// Hands out the next segment, or `None` at the end of the path.
    pub fn next(&mut self) -> (segment: Option<Segment<'a>>)
        ensures
            old(self).remaining().len() == 0 ==> segment is None && final(self).remaining()
                == old(self).remaining(),
            old(self).remaining().len() > 0 ==> segment is Some && segment->0.stands_for(
                first_run(old(self).remaining()),
            ) && final(self).remaining() == after_run(old(self).remaining()),
    {
        proof {
            use_type_invariant(&*self);
        }
        let bytes = self.input;
        let start = self.pos;
        if start >= bytes.len() {
            return None;
        }
        let digit = byte_is_digit(bytes[start]);
        let mut end: usize = start + 1;
        while end < bytes.len() && byte_is_digit(bytes[end]) == digit
            invariant
                start < end <= bytes.len(),
                digit == is_digit(bytes@[start as int]),
                forall|k: int| start <= k < end ==> is_digit(#[trigger] bytes@[k]) == digit,
            decreases bytes.len() - end,
        {
            end += 1;
        }
        let run = vstd::slice::slice_subrange(bytes, start, end);
        proof {
            let rest = bytes@.skip(start as int);
            assert forall|k: int| 0 <= k < end - start implies is_digit(#[trigger] rest[k])
                == is_digit(rest[0]) by {
                assert(rest[k] == bytes@[start + k]);
            }
            lemma_run_len_is((end - start) as nat, rest);
            assert(run@ =~= first_run(rest));
            assert(bytes@.skip(end as int) =~= after_run(rest));
        }
        self.pos = end;
        if digit {
            proof {
                assert forall|k: int| 0 <= k < run@.len() implies is_digit(#[trigger] run@[k]) by {
                    assert(run@[k] == bytes@[start + k]);
                }
            }
            Some(Segment::Number(parse_run(run)))
        } else {
            Some(Segment::Text(run))
        }
    }
}

/// A prefix of `n` bytes of one kind that ends at the end of `s` or at a byte
/// of the other kind is the first run of `s`.
pub proof fn lemma_run_len_is(n: nat, s: Seq<u8>)
    requires
        1 <= n <= s.len(),
        forall|k: int| 0 <= k < n ==> is_digit(#[trigger] s[k]) == is_digit(s[0]),
        n == s.len() || is_digit(s[n as int]) != is_digit(s[0]),
    ensures
        run_len(s) == n,
    decreases n,
{
    if n > 1 {
        let t = s.skip(1);
        assert(is_digit(s[1]) == is_digit(s[0]));
        assert forall|k: int| 0 <= k < n - 1 implies is_digit(#[trigger] t[k]) == is_digit(
            t[0],
        ) by {
            assert(t[k] == s[k + 1]);
        }
        if n < s.len() {
            assert(t[n - 1] == s[n as int]);
        }
        lemma_run_len_is((n - 1) as nat, t);
    }
}

/// The first run is never empty and never longer than the path, and all its
/// bytes are of the kind of its first byte.
pub proof fn lemma_run_len_bounds(s: Seq<u8>)
    requires
        s.len() > 0,
    ensures
        1 <= run_len(s) <= s.len(),
        forall|k: int| 0 <= k < run_len(s) ==> is_digit(#[trigger] s[k]) == is_digit(s[0]),
        run_len(s) == s.len() || is_digit(s[run_len(s) as int]) != is_digit(s[0]),
    decreases s.len(),
{
    if s.len() == 1 || is_digit(s[1]) != is_digit(s[0]) {
    } else {
        let t = s.skip(1);
        lemma_run_len_bounds(t);
        assert forall|k: int| 0 <= k < run_len(s) implies is_digit(#[trigger] s[k]) == is_digit(
            s[0],
        ) by {
            if k > 0 {
                assert(s[k] == t[k - 1]);
            }
        }
        if run_len(s) < s.len() {
            assert(s[run_len(s) as int] == t[run_len(t) as int]);
        }
    }
}

/// Decimal values grow with the number of digits read.
pub proof fn lemma_decimal_value_prefix(digits: Seq<u8>, n: int)
    requires
        0 <= n <= digits.len(),
        forall|k: int| 0 <= k < digits.len() ==> is_digit(#[trigger] digits[k]),
    ensures
        decimal_value(digits.take(n)) <= decimal_value(digits),
    decreases digits.len() - n,
{
    if n == digits.len() {
        assert(digits.take(n) =~= digits);
    } else {
        let longer = digits.take(n + 1);
        assert(longer.drop_last() =~= digits.take(n));
        assert(longer.last() == digits[n]);
        lemma_decimal_value_prefix(digits, n + 1);
    }
}

/// Leading zeros do not change a decimal value.
pub proof fn lemma_decimal_value_leading_zeros(digits: Seq<u8>, n: int)
    requires
        0 <= n <= digits.len(),
        forall|k: int| 0 <= k < n ==> digits[k] == 48u8,
    ensures
        decimal_value(digits.skip(n)) == decimal_value(digits),
    decreases digits.len(),
{
    if n == digits.len() {
        assert(digits.skip(n) =~= Seq::<u8>::empty());
        if digits.len() > 0 {
            lemma_decimal_value_leading_zeros(digits.drop_last(), n - 1);
            assert(digits.drop_last().skip(n - 1) =~= Seq::<u8>::empty());
        }
    } else {
        lemma_decimal_value_leading_zeros(digits.drop_last(), n);
        assert(digits.skip(n).drop_last() =~= digits.drop_last().skip(n));
        assert(digits.skip(n).last() == digits.last());
    }
}

/// The magnitude of a digit run: leading zeros are skipped, and a value that
/// does not fit in 128 bits counts as 0.
fn parse_run(run: &[u8]) -> (value: u128)
    requires
        forall|k: int| 0 <= k < run@.len() ==> is_digit(#[trigger] run@[k]),
    ensures
        value == run_value(run@),
{
    let mut first: usize = 0;
    while first < run.len() && run[first] == 48
        invariant
            first <= run.len(),
            forall|k: int| 0 <= k < first ==> run@[k] == 48u8,
        decreases run.len() - first,
    {
        first += 1;
    }
    let ghost digits = run@.skip(first as int);
    proof {
        lemma_decimal_value_leading_zeros(run@, first as int);
        assert(digits.take(0) =~= Seq::<u8>::empty());
    }
    let mut value: u128 = 0;
    let mut i: usize = first;
    while i < run.len()
        invariant
            first <= i <= run.len(),
            digits == run@.skip(first as int),
            decimal_value(digits) == decimal_value(run@),
            forall|k: int| 0 <= k < run@.len() ==> is_digit(#[trigger] run@[k]),
            value == decimal_value(digits.take(i - first)),
        decreases run.len() - i,
    {
        let digit: u128 = (run[i] - 48) as u128;
        proof {
            let longer = digits.take(i - first + 1);
            assert(longer.drop_last() =~= digits.take(i - first));
            assert(longer.last() == run@[i as int]);
            assert forall|k: int| 0 <= k < digits.len() implies is_digit(#[trigger] digits[k]) by {
                assert(digits[k] == run@[first + k]);
            }
            lemma_decimal_value_prefix(digits, i - first + 1);
            assert(decimal_value(longer) == value * 10 + digit);
            assert(decimal_value(longer) <= decimal_value(run@));
        }
        let scaled = match value.checked_mul(10) {
            Some(scaled) => scaled,
            None => {
                return 0;
            },
        };
        value = match scaled.checked_add(digit) {
            Some(sum) => sum,
            None => {
                return 0;
            },
        };
        i += 1;
    }
    proof {
        assert(digits.take(i - first) =~= digits);
    }
    value
}

/// Lexicographic comparison of two byte slices, as -1, 0 or 1.
pub fn compare_bytes(x: &[u8], y: &[u8]) -> (c: i8)
    ensures
        c == lex_order(x@, y@),
{
    let mut i: usize = 0;
    assert(x@.skip(0) =~= x@ && y@.skip(0) =~= y@);
    while i < x.len() && i < y.len()
        invariant
            i <= x.len(),
            i <= y.len(),
            lex_order(x@, y@) == lex_order(x@.skip(i as int), y@.skip(i as int)),
        decreases x.len() - i,
    {
        proof {
            let xs = x@.skip(i as int);
            let ys = y@.skip(i as int);
            assert(xs[0] == x@[i as int]);
            assert(ys[0] == y@[i as int]);
            assert(xs.skip(1) =~= x@.skip(i + 1));
            assert(ys.skip(1) =~= y@.skip(i + 1));
        }
        if x[i] < y[i] {
            return -1;
        }
        if x[i] > y[i] {
            return 1;
        }
        i += 1;
    }
    if i < y.len() {
        -1
    } else if i < x.len() {
        1
    } else {
        0
    }
}

/// Compares what two walks over segments have left, segment by segment.
pub fn compare_segments(a: Segments<'_>, b: Segments<'_>) -> (order: Ordering)
    ensures
        order == ordering_of(path_order(a.remaining(), b.remaining())),
{
    let mut a_iter = a;
    let mut b_iter = b;
    loop
        invariant
            path_order(a.remaining(), b.remaining()) == path_order(
                a_iter.remaining(),
                b_iter.remaining(),
            ),
        decreases a_iter.remaining().len(),
    {
        let ghost a_rest = a_iter.remaining();
        let ghost b_rest = b_iter.remaining();
        proof {
            if a_rest.len() > 0 {
                lemma_run_len_bounds(a_rest);
            }
        }
        match (a_iter.next(), b_iter.next()) {
            (None, None) => {
                return Ordering::Equal;
            },
            (None, Some(_)) => {
                return Ordering::Less;
            },
            (Some(_), None) => {
                return Ordering::Greater;
            },
            (Some(Segment::Text(a_seg)), Some(Segment::Text(b_seg))) => {
                let c = compare_bytes(a_seg, b_seg);
                if c < 0 {
                    return Ordering::Less;
                }
                if c > 0 {
                    return Ordering::Greater;
                }
            },
            (Some(Segment::Number(a_num)), Some(Segment::Number(b_num))) => {
                if a_num < b_num {
                    return Ordering::Less;
                }
                if a_num > b_num {
                    return Ordering::Greater;
                }
            },
            (Some(Segment::Text(_)), Some(Segment::Number(_))) => {
                return Ordering::Less;
            },
            (Some(Segment::Number(_)), Some(Segment::Text(_))) => {
                return Ordering::Greater;
            },
        }
    }
}

/// Compares two paths as strings in the version-aware order.
pub fn version_str_cmp(a: &str, b: &str) -> (order: Ordering)
    ensures
        order == ordering_of(path_order(utf8(a@), utf8(b@))),
{
    compare_segments(Segments::new(a), Segments::new(b))
}

/// Compares two paths in the version-aware order.
pub fn version_path_cmp(a: &str, b: &str) -> (order: Ordering)
    ensures
        order == ordering_of(path_order(utf8(a@), utf8(b@))),
{
    version_str_cmp(a, b)
}

/// The place of one path against another in the version-aware order, both
/// given as bytes: -1 before, 0 at the same rank, 1 after.
pub fn path_rank(a: &[u8], b: &[u8]) -> (c: i8)
    ensures
        c == path_order(a@, b@),
{
    proof {
        crate::sort_laws::lemma_order_range(a@, b@);
    }
    match compare_segments(Segments::over(a), Segments::over(b)) {
        Ordering::Less => -1,
        Ordering::Equal => 0,
        Ordering::Greater => 1,
    }
}

} // verus!
