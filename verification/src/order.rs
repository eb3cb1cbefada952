//! Ordered sets of paths: the version-aware order, each path once, and
//! paths of one rank in the order of their first coming.

use crate::sort::{path_order, path_rank};
use crate::sort_laws::{lemma_order_antisymmetric, lemma_order_chain, lemma_order_reflexive};
use vstd::prelude::*;

verus! {

/// No path of the list comes before an earlier one.
pub open spec fn ordered(list: Seq<Seq<u8>>) -> bool {
    forall|i: int, j: int| 0 <= i < j < list.len() ==> path_order(list[i], list[j]) <= 0
}

/// No path occurs twice in the list.
pub open spec fn distinct(list: Seq<Seq<u8>>) -> bool {
    forall|i: int, j: int| 0 <= i < j < list.len() ==> list[i] != list[j]
}

/// The two lists hold the same paths.
pub open spec fn same_members(a: Seq<Seq<u8>>, b: Seq<Seq<u8>>) -> bool {
    forall|x: Seq<u8>| a.contains(x) <==> b.contains(x)
}

/// `x` occurs in the list before `y` does.
pub open spec fn comes_first(list: Seq<Seq<u8>>, x: Seq<u8>, y: Seq<u8>) -> bool {
    exists|p: int|
        0 <= p < list.len() && #[trigger] list[p] == x && forall|q: int|
            0 <= q <= p ==> #[trigger] list[q] != y
}

/// Paths of one rank stand in `sorted` as they first came in `raw`.
pub open spec fn stable(raw: Seq<Seq<u8>>, sorted: Seq<Seq<u8>>) -> bool {
    forall|i: int, j: int|
        0 <= i < j < sorted.len() && path_order(sorted[i], sorted[j]) == 0 ==> comes_first(
            raw,
            sorted[i],
            sorted[j],
        )
}

/// `set` is the ordered set of `raw`: the same paths, each once, in the
/// version-aware order, and those of one rank in the order of their first
/// coming.
pub open spec fn ordered_set_of(raw: Seq<Seq<u8>>, set: Seq<Seq<u8>>) -> bool {
    &&& ordered(set)
    &&& distinct(set)
    &&& same_members(raw, set)
    &&& stable(raw, set)
}

/// The ordered set of a list of paths. There is exactly one, see
/// `lemma_ordered_set_unique`.
pub open spec fn ordered_set(raw: Seq<Seq<u8>>) -> Seq<Seq<u8>> {
    choose|set: Seq<Seq<u8>>| ordered_set_of(raw, set)
}

/// A list rises under a relation: each element stands in it to all that
/// follow.
pub open spec fn rising<T>(before: spec_fn(T, T) -> bool, list: Seq<T>) -> bool {
    forall|i: int, j: int| 0 <= i < j < list.len() ==> before(list[i], list[j])
}

/// Two lists that rise under a relation that never holds both ways, and
/// that hold the same elements, are the same list.
pub proof fn lemma_rising_unique<T>(before: spec_fn(T, T) -> bool, a: Seq<T>, b: Seq<T>)
    requires
        rising(before, a),
        rising(before, b),
        forall|x: T, y: T| !(#[trigger] before(x, y) && before(y, x)),
        forall|x: T| a.contains(x) <==> b.contains(x),
    ensures
        a == b,
    decreases a.len(),
{
    if a.len() == 0 {
        if b.len() > 0 {
            assert(b.contains(b[0]));
        }
        assert(a =~= b);
    } else if b.len() == 0 {
        assert(a.contains(a[0]));
    } else {
        let top = a.last();
        assert(a.contains(top));
        let k = choose|k: int| 0 <= k < b.len() && b[k] == top;
        assert(b.contains(b.last()));
        let m = choose|m: int| 0 <= m < a.len() && a[m] == b.last();
        if k < b.len() - 1 {
            assert(before(b[k], b[b.len() - 1]));
            if m < a.len() - 1 {
                assert(before(a[m], a[a.len() - 1]));
            }
        }
        assert(b.last() == top);
        let a0 = a.drop_last();
        let b0 = b.drop_last();
        assert forall|x: T| a0.contains(x) <==> b0.contains(x) by {
            if a0.contains(x) {
                let i = choose|i: int| 0 <= i < a0.len() && a0[i] == x;
                assert(a[i] == x);
                assert(before(a[i], a[a.len() - 1]));
                assert(a.contains(x));
                let j = choose|j: int| 0 <= j < b.len() && b[j] == x;
                if j == b.len() - 1 {
                    assert(before(top, top));
                }
                assert(b0[j] == x);
            }
            if b0.contains(x) {
                let j = choose|j: int| 0 <= j < b0.len() && b0[j] == x;
                assert(b[j] == x);
                assert(before(b[j], b[b.len() - 1]));
                assert(b.contains(x));
                let i = choose|i: int| 0 <= i < a.len() && a[i] == x;
                if i == a.len() - 1 {
                    assert(before(top, top));
                }
                assert(a0[i] == x);
            }
        }
        assert forall|i: int, j: int| 0 <= i < j < a0.len() implies before(a0[i], a0[j]) by {
            assert(a0[i] == a[i] && a0[j] == a[j]);
        }
        assert forall|i: int, j: int| 0 <= i < j < b0.len() implies before(b0[i], b0[j]) by {
            assert(b0[i] == b[i] && b0[j] == b[j]);
        }
        lemma_rising_unique(before, a0, b0);
        assert(a =~= a0.push(top));
        assert(b =~= b0.push(top));
    }
}

/// `x` stands before `y` in the ordered set of `raw`: it comes before it in
/// the version-aware order, or holds the same rank and occurs first.
pub open spec fn stands_before(raw: Seq<Seq<u8>>, x: Seq<u8>, y: Seq<u8>) -> bool {
    path_order(x, y) < 0 || (path_order(x, y) == 0 && comes_first(raw, x, y))
}

/// A list of paths has one ordered set and no other.
pub proof fn lemma_ordered_set_unique(raw: Seq<Seq<u8>>, a: Seq<Seq<u8>>, b: Seq<Seq<u8>>)
    requires
        ordered_set_of(raw, a),
        ordered_set_of(raw, b),
    ensures
        a == b,
{
    let before = |x: Seq<u8>, y: Seq<u8>| stands_before(raw, x, y);
    assert forall|x: Seq<u8>, y: Seq<u8>| !(#[trigger] before(x, y) && before(y, x)) by {
        lemma_order_antisymmetric(x, y);
        if before(x, y) && before(y, x) {
            let p = choose|p: int|
                0 <= p < raw.len() && #[trigger] raw[p] == x && forall|q: int|
                    0 <= q <= p ==> #[trigger] raw[q] != y;
            let r = choose|r: int|
                0 <= r < raw.len() && #[trigger] raw[r] == y && forall|q: int|
                    0 <= q <= r ==> #[trigger] raw[q] != x;
            if p <= r {
                assert(raw[p] != x);
            } else {
                assert(raw[r] != y);
            }
        }
    }
    assert(rising(before, a));
    assert(rising(before, b));
    lemma_rising_unique(before, a, b);
}

/// What is an ordered set of a list is the ordered set of the list.
pub proof fn lemma_is_ordered_set(raw: Seq<Seq<u8>>, set: Seq<Seq<u8>>)
    requires
        ordered_set_of(raw, set),
    ensures
        set == ordered_set(raw),
{
    lemma_ordered_set_unique(raw, set, ordered_set(raw));
}

/// Ordering settles in one pass: an ordered set is its own ordered set.
pub proof fn lemma_ordered_set_settled(raw: Seq<Seq<u8>>, set: Seq<Seq<u8>>)
    requires
        ordered_set_of(raw, set),
    ensures
        ordered_set_of(set, set),
        ordered_set(set) == set,
{
    assert forall|i: int, j: int|
        0 <= i < j < set.len() && path_order(set[i], set[j]) == 0 implies comes_first(
        set,
        set[i],
        set[j],
    ) by {
        assert forall|q: int| 0 <= q <= i implies #[trigger] set[q] != set[j] by {}
    }
    lemma_is_ordered_set(set, set);
}

/// The bytes behind a list of slices.
pub open spec fn views(keys: Seq<&[u8]>) -> Seq<Seq<u8>> {
    keys.map_values(|k: &[u8]| k@)
}

/// Every index of `order` points into a list of `len` paths.
pub open spec fn in_range(order: Seq<usize>, len: nat) -> bool {
    forall|i: int| 0 <= i < order.len() ==> #[trigger] order[i] < len
}

/// Every index of `order` points at the first coming of its path.
pub open spec fn first_comings(keys: Seq<Seq<u8>>, order: Seq<usize>) -> bool {
    forall|k: int, q: int|
        0 <= k < order.len() && 0 <= q < order[k] ==> #[trigger] keys[q] != keys[#[trigger] order[k] as int]
}

/// The paths that the indices of `order` pick from `keys`.
pub open spec fn picked(keys: Seq<Seq<u8>>, order: Seq<usize>) -> Seq<Seq<u8>> {
    Seq::new(order.len(), |i: int| keys[order[i] as int])
}

/// `set` grew out of `before` by taking `path` in at `at`, behind all that
/// does not come after it.
pub open spec fn taken_in(before: Seq<Seq<u8>>, set: Seq<Seq<u8>>, path: Seq<u8>, at: int) -> bool {
    &&& 0 <= at <= before.len()
    &&& set == before.insert(at, path)
    &&& forall|k: int| 0 <= k < at ==> path_order(#[trigger] before[k], path) <= 0
    &&& forall|k: int| at <= k < before.len() ==> path_order(#[trigger] before[k], path) > 0
}

/// Places the path `keys[next]` into the ordered set that `order` picks,
/// behind the paths that do not come after it, unless the set holds it
/// already.
fn place(keys: &Vec<&[u8]>, order: &mut Vec<usize>, next: usize) -> (added: bool)
    requires
        next < keys@.len(),
        in_range(old(order)@, keys@.len()),
        ordered(picked(views(keys@), old(order)@)),
        distinct(picked(views(keys@), old(order)@)),
    ensures
        in_range(final(order)@, keys@.len()),
        ordered(picked(views(keys@), final(order)@)),
        distinct(picked(views(keys@), final(order)@)),
        added == !picked(views(keys@), old(order)@).contains(keys@[next as int]@),
        !added ==> final(order)@ == old(order)@,
        forall|k: int|
            0 <= k < final(order)@.len() ==> #[trigger] final(order)@[k] == next || old(
                order,
            )@.contains(final(order)@[k]),
        added ==> exists|at: int| #[trigger]
            taken_in(
                picked(views(keys@), old(order)@),
                picked(views(keys@), final(order)@),
                keys@[next as int]@,
                at,
            ),
{
    let ghost all = views(keys@);
    let ghost list = picked(all, order@);
    let ghost path = keys@[next as int]@;
    let key: &[u8] = keys[next];
    let n: usize = order.len();
    let mut at: usize = n;
    while at > 0 && path_rank(keys[order[at - 1]], key) > 0
        invariant
            at <= n,
            n == order@.len(),
            order@ == old(order)@,
            in_range(order@, keys@.len()),
            all == views(keys@),
            list == picked(all, order@),
            ordered(list),
            distinct(list),
            next < keys@.len(),
            path == key@,
            path == keys@[next as int]@,
            forall|k: int| at <= k < n ==> path_order(#[trigger] list[k], path) > 0,
        decreases at,
    {
        at -= 1;
    }
    proof {
        assert forall|k: int| 0 <= k < at implies path_order(#[trigger] list[k], path) <= 0 by {
            if k < at - 1 {
                assert(path_order(list[k], list[at - 1]) <= 0);
                lemma_order_chain(list[k], list[at - 1], path);
            }
        }
    }
    let mut seen: usize = at;
    while seen > 0 && path_rank(keys[order[seen - 1]], key) == 0
        invariant
            seen <= at <= n,
            n == order@.len(),
            order@ == old(order)@,
            in_range(order@, keys@.len()),
            all == views(keys@),
            list == picked(all, order@),
            ordered(list),
            distinct(list),
            next < keys@.len(),
            path == key@,
            path == keys@[next as int]@,
            forall|k: int| seen <= k < at ==> #[trigger] list[k] != path,
        decreases seen,
    {
        if crate::paths::bytes_equal(keys[order[seen - 1]], key) {
            assert(list[seen - 1] == path);
            return false;
        }
        seen -= 1;
    }
    proof {
        lemma_order_reflexive(path);
        assert forall|k: int| 0 <= k < n implies #[trigger] list[k] != path by {
            if k < seen {
                assert(path_order(list[seen - 1], path) <= 0);
                if k < seen - 1 {
                    assert(path_order(list[k], list[seen - 1]) <= 0);
                    lemma_order_chain(list[k], list[seen - 1], path);
                }
            }
        }
    }
    order.insert(at, next);
    proof {
        assert forall|k: int| 0 <= k < order@.len() implies #[trigger] order@[k] == next || old(
            order,
        )@.contains(order@[k]) by {
            if k < at {
                assert(old(order)@[k] == order@[k]);
            } else if k > at {
                assert(old(order)@[k - 1] == order@[k]);
            }
        }
        let grown = picked(all, order@);
        assert(grown =~= list.insert(at as int, path));
        assert forall|i: int, j: int| 0 <= i < j < grown.len() implies path_order(
            grown[i],
            grown[j],
        ) <= 0 by {
            if j == at {
                assert(grown[i] == list[i]);
            } else if i == at {
                assert(grown[j] == list[j - 1]);
                lemma_order_antisymmetric(list[j - 1], path);
            } else {
                let a = if i < at { i } else { i - 1 };
                let b = if j < at { j } else { j - 1 };
                assert(grown[i] == list[a] && grown[j] == list[b]);
            }
        }
        assert forall|i: int, j: int| 0 <= i < j < grown.len() implies grown[i] != grown[j] by {
            let a = if i < at { i } else { i - 1 };
            let b = if j < at { j } else { j - 1 };
            if i != at && j != at {
                assert(grown[i] == list[a] && grown[j] == list[b]);
            } else if i == at {
                assert(grown[j] == list[b]);
            } else {
                assert(grown[i] == list[a]);
            }
        }
        assert(taken_in(list, grown, path, at as int));
    }
    true
}

/// Orders a list of paths given as bytes. The result picks each path of the
/// list once, by an index at which it stands, in the version-aware order;
/// paths of one rank come in the order of their first coming.
pub fn order_paths(keys: &Vec<&[u8]>) -> (order: Vec<usize>)
    ensures
        in_range(order@, keys@.len()),
        first_comings(views(keys@), order@),
        ordered_set_of(views(keys@), picked(views(keys@), order@)),
        picked(views(keys@), order@) == ordered_set(views(keys@)),
{
    let ghost all = views(keys@);
    let mut order: Vec<usize> = Vec::new();
    let mut i: usize = 0;
    while i < keys.len()
        invariant
            i <= keys.len(),
            all == views(keys@),
            in_range(order@, keys@.len()),
            first_comings(all, order@),
            ordered_set_of(all.take(i as int), picked(all, order@)),
        decreases keys.len() - i,
    {
        let ghost before = picked(all, order@);
        let ghost order_before = order@;
        let ghost seen = all.take(i as int);
        let ghost path = keys@[i as int]@;
        let added = place(keys, &mut order, i);
        proof {
            let upto = all.take(i + 1);
            let after = picked(all, order@);
            assert(upto =~= seen.push(path));
            assert forall|k: int, q: int|
                0 <= k < order@.len() && 0 <= q < order@[k] implies #[trigger] all[q]
                != all[#[trigger] order@[k] as int] by {
                if order_before.contains(order@[k]) {
                    let m = choose|m: int| 0 <= m < order_before.len() && order_before[m] == order@[k];
                    assert(all[q] != all[order_before[m] as int]);
                } else {
                    assert(order@[k] == i);
                    assert(added);
                    if all[q] == path {
                        assert(seen[q] == path);
                        assert(seen.contains(path));
                        assert(before.contains(path));
                    }
                }
            }
            assert forall|x: Seq<u8>| upto.contains(x) <==> after.contains(x) by {
                lemma_members_grow(seen, before, after, path, added, x);
            }
            assert forall|a: int, b: int|
                0 <= a < b < after.len() && path_order(after[a], after[b]) == 0 implies comes_first(
                upto,
                after[a],
                after[b],
            ) by {
                lemma_stable_grows(seen, before, after, path, added, a, b);
            }
        }
        i += 1;
    }
    assert(all.take(i as int) =~= all);
    proof {
        lemma_is_ordered_set(all, picked(all, order@));
    }
    order
}

/// Membership after one more path was taken in.
proof fn lemma_members_grow(
    seen: Seq<Seq<u8>>,
    before: Seq<Seq<u8>>,
    after: Seq<Seq<u8>>,
    path: Seq<u8>,
    added: bool,
    x: Seq<u8>,
)
    requires
        same_members(seen, before),
        added == !before.contains(path),
        !added ==> after == before,
        added ==> exists|at: int| #[trigger] taken_in(before, after, path, at),
    ensures
        seen.push(path).contains(x) <==> after.contains(x),
{
    let upto = seen.push(path);
    if upto.contains(x) {
        let p = choose|p: int| 0 <= p < upto.len() && upto[p] == x;
        if p < seen.len() {
            assert(seen[p] == x);
            assert(seen.contains(x));
            assert(before.contains(x));
            if added {
                let at = choose|at: int| #[trigger] taken_in(before, after, path, at);
                let q = choose|q: int| 0 <= q < before.len() && before[q] == x;
                let r = if q < at { q } else { q + 1 };
                assert(after[r] == x);
            }
        } else {
            assert(x == path);
            if added {
                let at = choose|at: int| #[trigger] taken_in(before, after, path, at);
                assert(after[at] == x);
            }
        }
    }
    if after.contains(x) {
        let r = choose|r: int| 0 <= r < after.len() && after[r] == x;
        if added {
            let at = choose|at: int| #[trigger] taken_in(before, after, path, at);
            if r == at {
                assert(upto[seen.len() as int] == x);
            } else {
                let q = if r < at { r } else { r - 1 };
                assert(before[q] == x);
                assert(before.contains(x));
                assert(seen.contains(x));
                let p = choose|p: int| 0 <= p < seen.len() && seen[p] == x;
                assert(upto[p] == x);
            }
        } else {
            assert(before.contains(x));
            assert(seen.contains(x));
            let p = choose|p: int| 0 <= p < seen.len() && seen[p] == x;
            assert(upto[p] == x);
        }
    }
}

/// What came first keeps coming first when the list grows at its end.
proof fn lemma_comes_first_extends(list: Seq<Seq<u8>>, last: Seq<u8>, x: Seq<u8>, y: Seq<u8>)
    requires
        comes_first(list, x, y),
    ensures
        comes_first(list.push(last), x, y),
{
    let p = choose|p: int|
        0 <= p < list.len() && #[trigger] list[p] == x && forall|q: int|
            0 <= q <= p ==> #[trigger] list[q] != y;
    let longer = list.push(last);
    assert(longer[p] == x);
    assert forall|q: int| 0 <= q <= p implies #[trigger] longer[q] != y by {
        assert(longer[q] == list[q]);
    }
}

/// Stability after one more path was taken in.
proof fn lemma_stable_grows(
    seen: Seq<Seq<u8>>,
    before: Seq<Seq<u8>>,
    after: Seq<Seq<u8>>,
    path: Seq<u8>,
    added: bool,
    a: int,
    b: int,
)
    requires
        same_members(seen, before),
        stable(seen, before),
        added == !before.contains(path),
        !added ==> after == before,
        added ==> exists|at: int| #[trigger] taken_in(before, after, path, at),
        0 <= a < b < after.len(),
        path_order(after[a], after[b]) == 0,
    ensures
        comes_first(seen.push(path), after[a], after[b]),
{
    let upto = seen.push(path);
    if !added {
        lemma_comes_first_extends(seen, path, after[a], after[b]);
    } else {
        let at = choose|at: int| #[trigger] taken_in(before, after, path, at);
        if a != at && b != at {
            let i = if a < at { a } else { a - 1 };
            let j = if b < at { b } else { b - 1 };
            assert(after[a] == before[i] && after[b] == before[j]);
            lemma_comes_first_extends(seen, path, after[a], after[b]);
        } else if b == at {
            assert(after[a] == before[a]);
            assert(before.contains(after[a]));
            assert(seen.contains(after[a]));
            let p = choose|p: int| 0 <= p < seen.len() && seen[p] == after[a];
            assert(upto[p] == after[a]);
            assert forall|q: int| 0 <= q <= p implies #[trigger] upto[q] != path by {
                if upto[q] == path {
                    assert(seen[q] == path);
                    assert(seen.contains(path));
                }
            }
        } else {
            assert(after[b] == before[b - 1]);
            lemma_order_antisymmetric(path, before[b - 1]);
        }
    }
}

} // verus!
