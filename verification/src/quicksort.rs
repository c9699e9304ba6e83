//! Sorting an array in place by a comparator.
//!
//! The sort is a quicksort that takes the last element of a range as the
//! pivot and parts the range in one pass from the front. Elements change
//! places byte by byte. Equal elements may change their order.

use crate::order::{
    accepts, answers_by, ask, lemma_row_bounds, lemma_row_count, row, row_count, rows,
};
use vstd::prelude::*;

verus! {

/// Whether, by `order`, `a` comes before `b` or equals it.
pub open spec fn comes_first(order: spec_fn(Seq<u8>, Seq<u8>) -> i32) -> spec_fn(
    Seq<u8>,
    Seq<u8>,
) -> bool {
    |a: Seq<u8>, b: Seq<u8>| order(a, b) <= 0
}

/// `s` with the elements at `i` and `j` in each other's place.
pub open spec fn exchanged(s: Seq<Seq<u8>>, i: int, j: int) -> Seq<Seq<u8>> {
    s.update(i, s[j]).update(j, s[i])
}

/// The rest of one pass over the range that starts at `first` and whose
/// pivot stands at `first + last`: the pass has come to the element at
/// `first + j`, and `i` elements were put to the front.
///
/// An element that comes first against the pivot changes places with the
/// one behind those already put to the front. At the end the pivot changes
/// places with the element behind them. The result is the array after the
/// pass and the place of the pivot in the range.
pub open spec fn partition_from(
    le: spec_fn(Seq<u8>, Seq<u8>) -> bool,
    s: Seq<Seq<u8>>,
    first: int,
    last: int,
    j: int,
    i: int,
) -> (Seq<Seq<u8>>, int)
    decreases last - j,
{
    if j >= last {
        (exchanged(s, first + i, first + last), i)
    } else if le(s[first + j], s[first + last]) {
        partition_from(le, exchanged(s, first + j, first + i), first, last, j + 1, i + 1)
    } else {
        partition_from(le, s, first, last, j + 1, i)
    }
}

/// The array after the range of `count` elements from `first` on was
/// parted around its last element, and the place of that element in the
/// range.
pub open spec fn partitioned(
    le: spec_fn(Seq<u8>, Seq<u8>) -> bool,
    s: Seq<Seq<u8>>,
    first: int,
    count: int,
) -> (Seq<Seq<u8>>, int) {
    partition_from(le, s, first, count - 1, 0, 0)
}

/// The array after the range of `count` elements from `first` on was
/// sorted: parted around its last element, then sorted before the pivot and
/// behind it.
pub open spec fn quicksorted(
    le: spec_fn(Seq<u8>, Seq<u8>) -> bool,
    s: Seq<Seq<u8>>,
    first: int,
    count: int,
) -> Seq<Seq<u8>>
    decreases count,
{
    if count <= 1 {
        s
    } else {
        let (parted, pivot) = partitioned(le, s, first, count);
        if 0 <= pivot < count {
            quicksorted(
                le,
                quicksorted(le, parted, first, pivot),
                first + pivot + 1,
                count - pivot - 1,
            )
        } else {
            s
        }
    }
}

/// Whether `element` stands in `s` somewhere from `first` up to
/// `first + count`.
pub open spec fn stands_in(s: Seq<Seq<u8>>, element: Seq<u8>, first: int, count: int) -> bool {
    exists|from: int| first <= from < first + count && #[trigger] s[from] == element
}

/// Whether `after` is `before` with the elements from `first` up to
/// `first + count` put in another order: the arrays agree outside of the
/// range, they hold the same elements equally often, and each element in
/// the range of `after` stood in the range of `before`.
pub open spec fn rearranged(
    before: Seq<Seq<u8>>,
    after: Seq<Seq<u8>>,
    first: int,
    count: int,
) -> bool {
    &&& after.len() == before.len()
    &&& after.to_multiset() == before.to_multiset()
    &&& forall|k: int|
        0 <= k < before.len() && !(first <= k < first + count) ==> #[trigger] after[k] == before[k]
    &&& forall|k: int|
        first <= k < first + count ==> stands_in(before, #[trigger] after[k], first, count)
}

/// Whether the order `le` compares any two elements of `size` bytes one
/// way or the other, and carries over from one pair of them to the next.
pub open spec fn is_total_preorder(le: spec_fn(Seq<u8>, Seq<u8>) -> bool, size: nat) -> bool {
    &&& forall|a: Seq<u8>, b: Seq<u8>|
        a.len() == size && b.len() == size ==> #[trigger] le(a, b) || #[trigger] le(b, a)
    &&& forall|a: Seq<u8>, b: Seq<u8>, c: Seq<u8>|
        a.len() == size && b.len() == size && c.len() == size && #[trigger] le(a, b)
            && #[trigger] le(b, c) ==> le(a, c)
}

/// Whether each element from `first` up to `first + count` has `size` bytes.
pub open spec fn has_rows_of(s: Seq<Seq<u8>>, size: nat, first: int, count: int) -> bool {
    forall|k: int| first <= k < first + count ==> (#[trigger] s[k]).len() == size
}

/// A range that is rearranged keeps the size of its elements.
proof fn lemma_rows_kept(
    before: Seq<Seq<u8>>,
    after: Seq<Seq<u8>>,
    size: nat,
    first: int,
    count: int,
)
    requires
        rearranged(before, after, first, count),
        has_rows_of(before, size, first, count),
    ensures
        has_rows_of(after, size, first, count),
{
    assert forall|k: int| first <= k < first + count implies (#[trigger] after[k]).len()
        == size by {
        assert(stands_in(before, after[k], first, count));
    }
}

/// Whether the elements from `first` up to `first + count` never fall: of
/// any two, the one that stands first comes first.
pub open spec fn is_sorted(
    le: spec_fn(Seq<u8>, Seq<u8>) -> bool,
    s: Seq<Seq<u8>>,
    first: int,
    count: int,
) -> bool {
    forall|a: int, b: int| first <= a <= b < first + count ==> le(#[trigger] s[a], #[trigger] s[b])
}

/// A range that is left alone is rearranged.
proof fn lemma_rearranged_same(s: Seq<Seq<u8>>, first: int, count: int)
    requires
        0 <= first,
        first + count <= s.len(),
    ensures
        rearranged(s, s, first, count),
{
    assert forall|k: int| first <= k < first + count implies stands_in(
        s,
        #[trigger] s[k],
        first,
        count,
    ) by {
        assert(s[k] == s[k]);
    }
}

/// Exchanging two elements of a range rearranges the range.
proof fn lemma_exchanged(s: Seq<Seq<u8>>, first: int, count: int, i: int, j: int)
    requires
        0 <= first,
        first + count <= s.len(),
        first <= i < first + count,
        first <= j < first + count,
    ensures
        rearranged(s, exchanged(s, i, j), first, count),
{
    let t = exchanged(s, i, j);
    vstd::seq_lib::to_multiset_update(s, i, s[j]);
    vstd::seq_lib::to_multiset_update(s.update(i, s[j]), j, s[i]);
    vstd::seq_lib::to_multiset_contains(s, s[i]);
    vstd::seq_lib::to_multiset_contains(s, s[j]);
    assert(s.contains(s[i]));
    assert(s.contains(s[j]));
    assert(t.to_multiset() =~= s.to_multiset());
    assert forall|k: int| first <= k < first + count implies stands_in(
        s,
        #[trigger] t[k],
        first,
        count,
    ) by {
        if k == j {
            assert(s[i] == t[k]);
        } else if k == i {
            assert(s[j] == t[k]);
        } else {
            assert(s[k] == t[k]);
        }
    }
}

/// Rearranging a part of a range that was rearranged rearranges the range.
proof fn lemma_rearranged_chain(
    before: Seq<Seq<u8>>,
    between: Seq<Seq<u8>>,
    after: Seq<Seq<u8>>,
    first: int,
    count: int,
    inner_first: int,
    inner_count: int,
)
    requires
        first <= inner_first,
        0 <= inner_count,
        inner_first + inner_count <= first + count,
        0 <= first,
        first + count <= before.len(),
        rearranged(before, between, first, count),
        rearranged(between, after, inner_first, inner_count),
    ensures
        rearranged(before, after, first, count),
{
    assert forall|k: int| first <= k < first + count implies stands_in(
        before,
        #[trigger] after[k],
        first,
        count,
    ) by {
        if inner_first <= k < inner_first + inner_count {
            assert(stands_in(between, after[k], inner_first, inner_count));
            let mid = choose|mid: int|
                inner_first <= mid < inner_first + inner_count && #[trigger] between[mid]
                    == after[k];
            assert(stands_in(before, between[mid], first, count));
        } else {
            assert(after[k] == between[k]);
            assert(stands_in(before, between[k], first, count));
        }
    }
}

/// What one pass gives: the range is rearranged, the pivot stands at the
/// place given, every element before it comes first against it, and none
/// behind it does.
proof fn lemma_partition_from(
    le: spec_fn(Seq<u8>, Seq<u8>) -> bool,
    s: Seq<Seq<u8>>,
    first: int,
    last: int,
    j: int,
    i: int,
)
    requires
        0 <= first,
        0 <= i <= j <= last,
        first + last < s.len(),
        forall|k: int| first <= k < first + i ==> le(#[trigger] s[k], s[first + last]),
        forall|k: int| first + i <= k < first + j ==> !le(#[trigger] s[k], s[first + last]),
    ensures
        ({
            let (parted, pivot) = partition_from(le, s, first, last, j, i);
            &&& 0 <= pivot <= last
            &&& rearranged(s, parted, first, last + 1)
            &&& parted[first + pivot] == s[first + last]
            &&& forall|k: int|
                first <= k < first + pivot ==> le(#[trigger] parted[k], parted[first + pivot])
            &&& forall|k: int|
                first + pivot < k <= first + last ==> !le(
                    #[trigger] parted[k],
                    parted[first + pivot],
                )
        }),
    decreases last - j,
{
    if j >= last {
        lemma_exchanged(s, first, last + 1, first + i, first + last);
    } else if le(s[first + j], s[first + last]) {
        let next = exchanged(s, first + j, first + i);
        lemma_exchanged(s, first, last + 1, first + j, first + i);
        lemma_partition_from(le, next, first, last, j + 1, i + 1);
        let (parted, pivot) = partition_from(le, next, first, last, j + 1, i + 1);
        lemma_rearranged_chain(s, next, parted, first, last + 1, first, last + 1);
    } else {
        lemma_partition_from(le, s, first, last, j + 1, i);
    }
}

/// Sorting a range rearranges it: the array keeps its elements, and those
/// outside of the range keep their places.
pub proof fn law_quicksort_rearranges(
    le: spec_fn(Seq<u8>, Seq<u8>) -> bool,
    s: Seq<Seq<u8>>,
    first: int,
    count: int,
)
    requires
        0 <= first,
        0 <= count,
        first + count <= s.len(),
    ensures
        rearranged(s, quicksorted(le, s, first, count), first, count),
    decreases count,
{
    if count <= 1 {
        assert forall|k: int| first <= k < first + count implies stands_in(
            s,
            #[trigger] s[k],
            first,
            count,
        ) by {
            assert(s[k] == s[k]);
        }
    } else {
        lemma_partition_from(le, s, first, count - 1, 0, 0);
        let (parted, pivot) = partitioned(le, s, first, count);
        law_quicksort_rearranges(le, parted, first, pivot);
        let left = quicksorted(le, parted, first, pivot);
        law_quicksort_rearranges(le, left, first + pivot + 1, count - pivot - 1);
        let right = quicksorted(le, left, first + pivot + 1, count - pivot - 1);
        lemma_rearranged_chain(s, parted, left, first, count, first, pivot);
        lemma_rearranged_chain(s, left, right, first, count, first + pivot + 1, count - pivot - 1);
    }
}

/// By an order that compares any two elements and carries over, a sorted
/// range never falls: each element comes first against every element
/// behind it.
pub proof fn law_quicksort_sorts(
    le: spec_fn(Seq<u8>, Seq<u8>) -> bool,
    s: Seq<Seq<u8>>,
    size: nat,
    first: int,
    count: int,
)
    requires
        0 <= first,
        0 <= count,
        first + count <= s.len(),
        has_rows_of(s, size, first, count),
        is_total_preorder(le, size),
    ensures
        is_sorted(le, quicksorted(le, s, first, count), first, count),
    decreases count,
{
    if count <= 1 {
        assert forall|a: int, b: int| first <= a <= b < first + count implies le(
            #[trigger] s[a],
            #[trigger] s[b],
        ) by {
            assert(le(s[a], s[a]) || le(s[a], s[a]));
        }
    } else {
        lemma_partition_from(le, s, first, count - 1, 0, 0);
        let (parted, pivot) = partitioned(le, s, first, count);
        let middle = first + pivot;
        let value = parted[middle];
        lemma_rows_kept(s, parted, size, first, count);
        law_quicksort_rearranges(le, parted, first, pivot);
        law_quicksort_sorts(le, parted, size, first, pivot);
        let left = quicksorted(le, parted, first, pivot);
        lemma_rearranged_chain(s, parted, left, first, count, first, pivot);
        lemma_rows_kept(s, left, size, first, count);
        law_quicksort_rearranges(le, left, middle + 1, count - pivot - 1);
        law_quicksort_sorts(le, left, size, middle + 1, count - pivot - 1);
        let out = quicksorted(le, left, middle + 1, count - pivot - 1);
        lemma_rearranged_chain(s, left, out, first, count, middle + 1, count - pivot - 1);
        lemma_rows_kept(s, out, size, first, count);
        assert(out[middle] == value);
        assert forall|k: int| first <= k < middle implies le(#[trigger] out[k], value) by {
            assert(out[k] == left[k]);
            assert(stands_in(parted, left[k], first, pivot));
            let from = choose|from: int|
                first <= from < first + pivot && #[trigger] parted[from] == left[k];
            assert(le(parted[from], value));
        }
        assert forall|k: int| middle < k < first + count implies le(value, #[trigger] out[k]) by {
            assert(stands_in(left, out[k], middle + 1, count - pivot - 1));
            let from = choose|from: int|
                middle + 1 <= from < middle + 1 + (count - pivot - 1) && #[trigger] left[from]
                    == out[k];
            assert(left[from] == parted[from]);
            assert(!le(parted[from], value));
            assert(le(parted[from], value) || le(value, parted[from]));
        }
        assert forall|a: int, b: int| first <= a <= b < first + count implies le(
            #[trigger] out[a],
            #[trigger] out[b],
        ) by {
            if b < middle {
                assert(out[a] == left[a] && out[b] == left[b]);
            } else if a > middle {
            } else if a == middle && b == middle {
                assert(le(value, value) || le(value, value));
            } else if a == middle {
            } else if b == middle {
            } else {
                assert(le(out[a], value) && le(value, out[b]));
            }
        }
    }
}

/// Whether two runs of bytes agree outside of the elements from `first` up
/// to `first + count`.
pub open spec fn same_outside(
    before: Seq<u8>,
    after: Seq<u8>,
    size: int,
    first: int,
    count: int,
) -> bool {
    &&& after.len() == before.len()
    &&& forall|k: int|
        0 <= k < before.len() && !(first * size <= k < (first + count) * size) ==> after[k]
            == before[k]
}

/// Exchanges the elements at the indices `a` and `b` byte by byte.
fn swap_bytes(v: &mut Vec<u8>, a: usize, b: usize, size: usize)
    requires
        size > 0,
        a < row_count(old(v)@, size as int),
        b < row_count(old(v)@, size as int),
    ensures
        final(v)@.len() == old(v)@.len(),
        rows(final(v)@, size as int) == exchanged(rows(old(v)@, size as int), a as int, b as int),
        forall|k: int|
            0 <= k < old(v)@.len() && !(a * size <= k < a * size + size) && !(b * size <= k < b
                * size + size) ==> final(v)@[k] == old(v)@[k],
{
    let len = v.len();
    let ghost count = row_count(v@, size as int);
    proof {
        lemma_row_count(v@, size as int, 0);
        lemma_row_bounds(a as int, count, size as int);
        lemma_row_bounds(b as int, count, size as int);
        if a < b {
            lemma_row_bounds(a as int, b as int, size as int);
        }
        if b < a {
            lemma_row_bounds(b as int, a as int, size as int);
        }
    }
    let from = a * size;
    let to = b * size;
    let mut index: usize = 0;
    while index < size
        invariant
            size > 0,
            from == a * size,
            to == b * size,
            from + size <= len,
            to + size <= len,
            from == to || from + size <= to || to + size <= from,
            len == old(v)@.len(),
            v@.len() == len,
            index <= size,
            forall|k: int|
                0 <= k < len ==> v@[k] == (if from <= k < from + index {
                    old(v)@[k - from + to]
                } else if to <= k < to + index {
                    old(v)@[k - to + from]
                } else {
                    old(v)@[k]
                }),
        decreases size - index,
    {
        let temp = v[from + index];
        let other = v[to + index];
        v.set(from + index, other);
        v.set(to + index, temp);
        index = index + 1;
    }
    proof {
        let before = rows(old(v)@, size as int);
        let after = rows(v@, size as int);
        let wanted = exchanged(before, a as int, b as int);
        assert(after.len() == wanted.len());
        assert forall|r: int| 0 <= r < after.len() implies after[r] == wanted[r] by {
            lemma_row_bounds(r, count, size as int);
            if r < a {
                lemma_row_bounds(r, a as int, size as int);
            }
            if a < r {
                lemma_row_bounds(a as int, r, size as int);
            }
            if r < b {
                lemma_row_bounds(r, b as int, size as int);
            }
            if b < r {
                lemma_row_bounds(b as int, r, size as int);
            }
            if r == a {
                assert(after[r] =~= before[b as int]);
            } else if r == b {
                assert(after[r] =~= before[a as int]);
            } else {
                assert(after[r] =~= before[r]);
            }
        }
        assert(after =~= wanted);
    }
}

/// Bytes outside of two elements of a range lie outside of the range's
/// other elements too: what agrees outside of the two elements agrees
/// outside of the range.
proof fn lemma_swap_inside(
    before: Seq<u8>,
    after: Seq<u8>,
    size: int,
    first: int,
    count: int,
    a: int,
    b: int,
)
    requires
        size > 0,
        first <= a < first + count,
        first <= b < first + count,
        after.len() == before.len(),
        forall|k: int|
            0 <= k < before.len() && !(a * size <= k < a * size + size) && !(b * size <= k < b
                * size + size) ==> after[k] == before[k],
    ensures
        same_outside(before, after, size, first, count),
{
    lemma_row_bounds(a - first, count, size);
    lemma_row_bounds(b - first, count, size);
    assert((a - first) * size == a * size - first * size) by (nonlinear_arith);
    assert((b - first) * size == b * size - first * size) by (nonlinear_arith);
    assert((first + count) * size == first * size + count * size) by (nonlinear_arith);
}

/// Agreement outside of a range carries over from one step to the next.
proof fn lemma_same_outside_chain(
    before: Seq<u8>,
    between: Seq<u8>,
    after: Seq<u8>,
    size: int,
    first: int,
    count: int,
    inner_first: int,
    inner_count: int,
)
    requires
        size > 0,
        first <= inner_first,
        0 <= inner_count,
        inner_first + inner_count <= first + count,
        same_outside(before, between, size, first, count),
        same_outside(between, after, size, inner_first, inner_count),
    ensures
        same_outside(before, after, size, first, count),
{
    assert(first * size <= inner_first * size) by (nonlinear_arith)
        requires
            first <= inner_first,
            size > 0,
    ;
    assert((inner_first + inner_count) * size <= (first + count) * size) by (nonlinear_arith)
        requires
            inner_first + inner_count <= first + count,
            size > 0,
    ;
}

/// Parts the range of `nmemb` elements from `first` on around its last
/// element and gives the place of that element in the range.
fn partition<F: Fn(&[u8], &[u8]) -> i32>(
    v: &mut Vec<u8>,
    first: usize,
    nmemb: usize,
    size: usize,
    f: &F,
) -> (pivot: usize)
    requires
        size > 0,
        nmemb > 0,
        first + nmemb <= row_count(old(v)@, size as int),
        accepts(*f, size),
    ensures
        pivot < nmemb,
        same_outside(old(v)@, final(v)@, size as int, first as int, nmemb as int),
        rearranged(
            rows(old(v)@, size as int),
            rows(final(v)@, size as int),
            first as int,
            nmemb as int,
        ),
        forall|order: spec_fn(Seq<u8>, Seq<u8>) -> i32| #[trigger]
            answers_by(*f, order) ==> (rows(final(v)@, size as int), pivot as int) == partitioned(
                comes_first(order),
                rows(old(v)@, size as int),
                first as int,
                nmemb as int,
            ),
{
    let ghost start = rows(v@, size as int);
    let last_idx = nmemb - 1;
    let mut i: usize = 0;
    let mut j: usize = 0;
    let len = v.len();
    proof {
        lemma_row_count(v@, size as int, 0);
        lemma_rearranged_same(start, first as int, nmemb as int);
    }
    while j < last_idx
        invariant
            size > 0,
            first + nmemb <= usize::MAX,
            rearranged(start, rows(v@, size as int), first as int, nmemb as int),
            accepts(*f, size),
            last_idx == nmemb - 1,
            i <= j <= last_idx,
            first + nmemb <= row_count(v@, size as int),
            v@.len() == old(v)@.len(),
            same_outside(old(v)@, v@, size as int, first as int, nmemb as int),
            start == rows(old(v)@, size as int),
            forall|order: spec_fn(Seq<u8>, Seq<u8>) -> i32| #[trigger]
                answers_by(*f, order) ==> partition_from(
                    comes_first(order),
                    rows(v@, size as int),
                    first as int,
                    last_idx as int,
                    j as int,
                    i as int,
                ) == partition_from(
                    comes_first(order),
                    start,
                    first as int,
                    last_idx as int,
                    0,
                    0,
                ),
        decreases last_idx - j,
    {
        let answer = ask(f, v.as_slice(), size, first + j, first + last_idx);
        if answer <= 0 {
            let ghost before = v@;
            swap_bytes(v, first + j, first + i, size);
            proof {
                lemma_swap_inside(
                    before,
                    v@,
                    size as int,
                    first as int,
                    nmemb as int,
                    first + j,
                    first + i,
                );
                lemma_row_count(before, size as int, 0);
                lemma_exchanged(
                    rows(before, size as int),
                    first as int,
                    nmemb as int,
                    first + j,
                    first + i,
                );
                lemma_rearranged_chain(
                    start,
                    rows(before, size as int),
                    rows(v@, size as int),
                    first as int,
                    nmemb as int,
                    first as int,
                    nmemb as int,
                );
                lemma_same_outside_chain(
                    old(v)@,
                    before,
                    v@,
                    size as int,
                    first as int,
                    nmemb as int,
                    first as int,
                    nmemb as int,
                );
            }
            i = i + 1;
        }
        j = j + 1;
    }
    let ghost before = v@;
    swap_bytes(v, first + i, first + last_idx, size);
    proof {
        lemma_swap_inside(
            before,
            v@,
            size as int,
            first as int,
            nmemb as int,
            first + i,
            first + last_idx,
        );
        lemma_row_count(before, size as int, 0);
        lemma_exchanged(
            rows(before, size as int),
            first as int,
            nmemb as int,
            first + i,
            first + last_idx,
        );
        lemma_rearranged_chain(
            start,
            rows(before, size as int),
            rows(v@, size as int),
            first as int,
            nmemb as int,
            first as int,
            nmemb as int,
        );
        lemma_same_outside_chain(
            old(v)@,
            before,
            v@,
            size as int,
            first as int,
            nmemb as int,
            first as int,
            nmemb as int,
        );
    }
    i
}

/// Sorts the range of `nmemb` elements from `first` on.
fn qsort_internal<F: Fn(&[u8], &[u8]) -> i32>(
    v: &mut Vec<u8>,
    first: usize,
    nmemb: usize,
    size: usize,
    f: &F,
)
    requires
        size > 0,
        first + nmemb <= row_count(old(v)@, size as int),
        accepts(*f, size),
    ensures
        same_outside(old(v)@, final(v)@, size as int, first as int, nmemb as int),
        rearranged(
            rows(old(v)@, size as int),
            rows(final(v)@, size as int),
            first as int,
            nmemb as int,
        ),
        forall|order: spec_fn(Seq<u8>, Seq<u8>) -> i32| #[trigger]
            answers_by(*f, order) ==> rows(final(v)@, size as int) == quicksorted(
                comes_first(order),
                rows(old(v)@, size as int),
                first as int,
                nmemb as int,
            ),
    decreases nmemb,
{
    let len = v.len();
    proof {
        lemma_row_count(v@, size as int, 0);
    }
    if nmemb <= 1 {
        proof {
            lemma_rearranged_same(rows(v@, size as int), first as int, nmemb as int);
        }
        return ;
    }
    let pivot_idx = partition(v, first, nmemb, size, f);
    let ghost parted = v@;
    let left_size = pivot_idx;
    qsort_internal(v, first, left_size, size, f);
    let ghost left_sorted = v@;
    let right_size = nmemb - pivot_idx - 1;
    qsort_internal(v, first + pivot_idx + 1, right_size, size, f);
    proof {
        lemma_same_outside_chain(
            old(v)@,
            parted,
            left_sorted,
            size as int,
            first as int,
            nmemb as int,
            first as int,
            left_size as int,
        );
        lemma_same_outside_chain(
            old(v)@,
            left_sorted,
            v@,
            size as int,
            first as int,
            nmemb as int,
            first + pivot_idx + 1,
            right_size as int,
        );
        lemma_rearranged_chain(
            rows(old(v)@, size as int),
            rows(parted, size as int),
            rows(left_sorted, size as int),
            first as int,
            nmemb as int,
            first as int,
            left_size as int,
        );
        lemma_rearranged_chain(
            rows(old(v)@, size as int),
            rows(left_sorted, size as int),
            rows(v@, size as int),
            first as int,
            nmemb as int,
            first + pivot_idx + 1,
            right_size as int,
        );
    }
}

/// Sorts the first `nmemb` elements of `size` bytes each in `base` by the
/// comparator. Nothing happens where the array is null or `nmemb` or
/// `size` is zero.
pub fn qsort<F: Fn(&[u8], &[u8]) -> i32>(
    base: Option<&mut Vec<u8>>,
    nmemb: usize,
    size: usize,
    compar: F,
)
    requires
        base matches Some(v) ==> (nmemb > 0 && size > 0 ==> nmemb * size <= v@.len() && accepts(
            compar,
            size,
        )),
    ensures
        base matches Some(v) ==> {
            &&& nmemb == 0 || size == 0 ==> final(v)@ == v@
            &&& same_outside(v@, final(v)@, size as int, 0, nmemb as int)
            &&& nmemb > 0 && size > 0 ==> rearranged(
                rows(v@, size as int),
                rows(final(v)@, size as int),
                0,
                nmemb as int,
            )
            &&& nmemb > 0 && size > 0 ==> forall|order: spec_fn(Seq<u8>, Seq<u8>) -> i32| #[trigger]
                answers_by(compar, order) ==> rows(final(v)@, size as int) == quicksorted(
                    comes_first(order),
                    rows(v@, size as int),
                    0,
                    nmemb as int,
                )
        },
{
    match base {
        None => {},
        Some(v) => {
            if nmemb == 0 || size == 0 {
                return ;
            }
            proof {
                lemma_row_count(v@, size as int, nmemb as int);
            }
            qsort_internal(v, 0, nmemb, size, &compar);
        },
    }
}

} // verus!
