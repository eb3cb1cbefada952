//! The version-aware order is a strict total order on the ranks of paths.
//!
//! Two different paths can hold the same rank: a digit run is ordered by its
//! magnitude, so leading zeros do not count, and a run too long for 128 bits
//! ranks as zero. On paths whose digit runs are written plainly the rank is
//! the path itself.

use crate::sort::{
    after_run, decimal_value, first_run, is_digit, lemma_run_len_bounds, lex_order, path_order,
    precedes, same_rank, segment_order,
};
use vstd::prelude::*;

verus! {

/// Every byte of `s` is a decimal digit.
pub open spec fn all_digits(s: Seq<u8>) -> bool {
    forall|k: int| 0 <= k < s.len() ==> is_digit(#[trigger] s[k])
}

/// A segment is written plainly: text, or a digit run without a needless
/// leading zero whose value fits in 128 bits.
pub open spec fn plain_run(run: Seq<u8>) -> bool {
    is_digit(run[0]) ==> (run.len() == 1 || run[0] != 48u8) && decimal_value(run) <= u128::MAX
}

/// Every digit run of `s` is written plainly.
pub open spec fn plain_numbers(s: Seq<u8>) -> bool
    decreases s.len(),
{
    if s.len() == 0 {
        true
    } else {
        proof {
            lemma_run_len_bounds(s);
        }
        plain_run(first_run(s)) && plain_numbers(after_run(s))
    }
}

proof fn lemma_lex_reflexive(x: Seq<u8>)
    ensures
        lex_order(x, x) == 0,
    decreases x.len(),
{
    if x.len() > 0 {
        lemma_lex_reflexive(x.skip(1));
    }
}

proof fn lemma_lex_antisymmetric(x: Seq<u8>, y: Seq<u8>)
    ensures
        lex_order(x, y) == -lex_order(y, x),
    decreases x.len(),
{
    if x.len() > 0 && y.len() > 0 && x[0] == y[0] {
        lemma_lex_antisymmetric(x.skip(1), y.skip(1));
    }
}

proof fn lemma_lex_transitive(x: Seq<u8>, y: Seq<u8>, z: Seq<u8>)
    requires
        lex_order(x, y) <= 0,
        lex_order(y, z) <= 0,
    ensures
        lex_order(x, z) <= 0,
        lex_order(x, y) < 0 || lex_order(y, z) < 0 ==> lex_order(x, z) < 0,
    decreases x.len(),
{
    if x.len() > 0 && y.len() > 0 && z.len() > 0 && x[0] == y[0] && y[0] == z[0] {
        lemma_lex_transitive(x.skip(1), y.skip(1), z.skip(1));
    }
}

proof fn lemma_lex_equal(x: Seq<u8>, y: Seq<u8>)
    requires
        lex_order(x, y) == 0,
    ensures
        x == y,
    decreases x.len(),
{
    if x.len() > 0 && y.len() > 0 {
        lemma_lex_equal(x.skip(1), y.skip(1));
        assert(x =~= seq![x[0]] + x.skip(1));
        assert(y =~= seq![y[0]] + y.skip(1));
    } else {
        assert(x =~= y);
    }
}

proof fn lemma_segment_antisymmetric(x: Seq<u8>, y: Seq<u8>)
    ensures
        segment_order(x, y) == -segment_order(y, x),
{
    lemma_lex_antisymmetric(x, y);
}

proof fn lemma_segment_transitive(x: Seq<u8>, y: Seq<u8>, z: Seq<u8>)
    requires
        segment_order(x, y) <= 0,
        segment_order(y, z) <= 0,
    ensures
        segment_order(x, z) <= 0,
        segment_order(x, y) < 0 || segment_order(y, z) < 0 ==> segment_order(x, z) < 0,
{
    if !is_digit(x[0]) && !is_digit(y[0]) && !is_digit(z[0]) {
        lemma_lex_transitive(x, y, z);
    }
}

/// Segments of equal rank stay of equal rank across a third.
proof fn lemma_segment_same_rank(x: Seq<u8>, y: Seq<u8>, z: Seq<u8>)
    requires
        segment_order(x, y) == 0,
        segment_order(y, z) == 0,
    ensures
        segment_order(x, z) == 0,
{
    lemma_segment_transitive(x, y, z);
    lemma_segment_antisymmetric(x, y);
    lemma_segment_antisymmetric(y, z);
    lemma_segment_antisymmetric(x, z);
    lemma_segment_transitive(z, y, x);
}

proof fn lemma_lex_range(x: Seq<u8>, y: Seq<u8>)
    ensures
        -1 <= lex_order(x, y) <= 1,
    decreases x.len(),
{
    if x.len() > 0 && y.len() > 0 && x[0] == y[0] {
        lemma_lex_range(x.skip(1), y.skip(1));
    }
}

/// The outcome of a comparison is -1, 0 or 1.
pub proof fn lemma_order_range(a: Seq<u8>, b: Seq<u8>)
    ensures
        -1 <= path_order(a, b) <= 1,
    decreases a.len(),
{
    if a.len() > 0 && b.len() > 0 {
        lemma_run_len_bounds(a);
        lemma_lex_range(first_run(a), first_run(b));
        lemma_order_range(after_run(a), after_run(b));
    }
}

/// Every path holds the same rank as itself.
pub proof fn lemma_order_reflexive(a: Seq<u8>)
    ensures
        path_order(a, a) == 0,
    decreases a.len(),
{
    if a.len() > 0 {
        lemma_run_len_bounds(a);
        lemma_lex_reflexive(first_run(a));
        lemma_order_reflexive(after_run(a));
    }
}

/// Swapping the two paths reverses the outcome.
pub proof fn lemma_order_antisymmetric(a: Seq<u8>, b: Seq<u8>)
    ensures
        path_order(a, b) == -path_order(b, a),
    decreases a.len(),
{
    if a.len() > 0 && b.len() > 0 {
        lemma_run_len_bounds(a);
        lemma_segment_antisymmetric(first_run(a), first_run(b));
        lemma_order_antisymmetric(after_run(a), after_run(b));
    }
}

/// The order composes: what is not after `b`, with `b` not after `c`, is not
/// after `c`, and strictly before it as soon as one of the two steps is
/// strict.
pub proof fn lemma_order_chain(a: Seq<u8>, b: Seq<u8>, c: Seq<u8>)
    requires
        path_order(a, b) <= 0,
        path_order(b, c) <= 0,
    ensures
        path_order(a, c) <= 0,
        path_order(a, b) < 0 || path_order(b, c) < 0 ==> path_order(a, c) < 0,
    decreases a.len(),
{
    if a.len() > 0 && b.len() > 0 && c.len() > 0 {
        lemma_run_len_bounds(a);
        let fa = first_run(a);
        let fb = first_run(b);
        let fc = first_run(c);
        lemma_segment_transitive(fa, fb, fc);
        if segment_order(fa, fb) == 0 && segment_order(fb, fc) == 0 {
            lemma_segment_same_rank(fa, fb, fc);
            lemma_order_chain(after_run(a), after_run(b), after_run(c));
        }
    }
}

/// Of two paths exactly one holds: the first comes before the second, they
/// hold the same rank, or the second comes before the first.
pub proof fn lemma_order_total(a: Seq<u8>, b: Seq<u8>)
    ensures
        precedes(a, b) || same_rank(a, b) || precedes(b, a),
        !(precedes(a, b) && same_rank(a, b)),
        !(precedes(a, b) && precedes(b, a)),
        !(same_rank(a, b) && precedes(b, a)),
{
    lemma_order_antisymmetric(a, b);
}

/// No path comes before itself.
pub proof fn lemma_order_irreflexive(a: Seq<u8>)
    ensures
        !precedes(a, a),
{
    lemma_order_reflexive(a);
}

/// Coming before is transitive.
pub proof fn lemma_order_transitive(a: Seq<u8>, b: Seq<u8>, c: Seq<u8>)
    requires
        precedes(a, b),
        precedes(b, c),
    ensures
        precedes(a, c),
{
    lemma_order_chain(a, b, c);
}

/// Holding the same rank is an equivalence, and paths of one rank stand alike
/// to every other path.
pub proof fn lemma_same_rank_congruent(a: Seq<u8>, b: Seq<u8>, c: Seq<u8>)
    requires
        same_rank(a, b),
    ensures
        same_rank(b, a),
        path_order(a, c) == path_order(b, c),
        path_order(c, a) == path_order(c, b),
{
    lemma_order_antisymmetric(a, b);
    lemma_order_antisymmetric(a, c);
    lemma_order_antisymmetric(b, c);
    lemma_order_range(a, c);
    lemma_order_range(b, c);
    if path_order(b, c) <= 0 {
        lemma_order_chain(a, b, c);
    }
    if path_order(c, b) <= 0 {
        lemma_order_chain(c, b, a);
    }
    if path_order(a, c) <= 0 {
        lemma_order_chain(b, a, c);
    }
    if path_order(c, a) <= 0 {
        lemma_order_chain(c, a, b);
    }
}

proof fn lemma_digits_positive(s: Seq<u8>)
    requires
        s.len() > 0,
        all_digits(s),
        s[0] != 48u8,
    ensures
        decimal_value(s) >= 1,
    decreases s.len(),
{
    if s.len() > 1 {
        lemma_digits_positive(s.drop_last());
    }
}

/// Plainly written digit runs of equal value are equal.
proof fn lemma_plain_digits_unique(x: Seq<u8>, y: Seq<u8>)
    requires
        x.len() > 0,
        y.len() > 0,
        all_digits(x),
        all_digits(y),
        x.len() == 1 || x[0] != 48u8,
        y.len() == 1 || y[0] != 48u8,
        decimal_value(x) == decimal_value(y),
    ensures
        x == y,
    decreases x.len(),
{
    let xs = x.drop_last();
    let ys = y.drop_last();
    assert(is_digit(x.last()) && is_digit(y.last()));
    assert(x.last() == y.last() && decimal_value(xs) == decimal_value(ys));
    if x.len() > 1 {
        lemma_digits_positive(xs);
    }
    if y.len() > 1 {
        lemma_digits_positive(ys);
    }
    if x.len() > 1 && y.len() > 1 {
        lemma_plain_digits_unique(xs, ys);
    }
    assert(x =~= xs.push(x.last()));
    assert(y =~= ys.push(y.last()));
}

/// On paths whose digit runs are written plainly, only a path itself holds
/// its rank.
pub proof fn lemma_same_rank_is_identity(a: Seq<u8>, b: Seq<u8>)
    requires
        plain_numbers(a),
        plain_numbers(b),
        same_rank(a, b),
    ensures
        a == b,
    decreases a.len(),
{
    if a.len() > 0 && b.len() > 0 {
        lemma_run_len_bounds(a);
        lemma_run_len_bounds(b);
        let fa = first_run(a);
        let fb = first_run(b);
        if is_digit(fa[0]) {
            assert(all_digits(fa));
            assert(all_digits(fb));
            lemma_plain_digits_unique(fa, fb);
        } else {
            lemma_lex_equal(fa, fb);
        }
        lemma_same_rank_is_identity(after_run(a), after_run(b));
        assert(a =~= fa + after_run(a));
        assert(b =~= fb + after_run(b));
    } else {
        assert(a =~= b);
    }
}

} // verus!
