//! Binary search in an array that a comparator orders.

use crate::order::{
    accepts_key, answers_by, ask_key, lemma_row_bounds, lemma_row_count, may_answer, row,
    row_count, rows,
};
use crate::quicksort::{comes_first, is_sorted, is_total_preorder};
use vstd::prelude::*;

verus! {

/// The index that bisection finds between `left` and `right`, where
/// `answers` gives for each index what the comparator says about the key
/// and the element there.
///
/// The middle of the range is asked about. It is the result where the key
/// equals it; otherwise the search goes on in the half before it, where the
/// key comes before it, or in the half behind it. An empty range holds
/// nothing. Of several elements that equal the key, the one that is asked
/// about first is found.
pub open spec fn bisect(answers: spec_fn(int) -> i32, left: int, right: int) -> Option<int>
    decreases right - left,
{
    if left >= right {
        None
    } else {
        let mid = left + (right - left) / 2;
        if answers(mid) == 0 {
            Some(mid)
        } else if answers(mid) < 0 {
            bisect(answers, left, mid)
        } else {
            bisect(answers, mid + 1, right)
        }
    }
}

/// What `order` gives for `key` and each element of `size` bytes in
/// `bytes`.
pub open spec fn key_answers(
    order: spec_fn(Seq<u8>, Seq<u8>) -> i32,
    key: Seq<u8>,
    bytes: Seq<u8>,
    size: usize,
) -> spec_fn(int) -> i32 {
    |index: int| order(key, row(bytes, size as int, index))
}

/// Whether the elements from `left` up to `right` are in order for the key:
/// those that the key comes behind stand first, those that it comes before
/// stand last.
pub open spec fn in_key_order(answers: spec_fn(int) -> i32, left: int, right: int) -> bool {
    forall|i: int, j: int|
        left <= i <= j < right ==> (#[trigger] answers(i) < 0 ==> #[trigger] answers(j) < 0) && (
        answers(j) > 0 ==> answers(i) > 0)
}

/// In an array that is in order for the key, bisection finds an element
/// that equals the key where there is one, and nothing where there is none.
pub proof fn law_bisect_finds(answers: spec_fn(int) -> i32, left: int, right: int)
    requires
        in_key_order(answers, left, right),
    ensures
        match bisect(answers, left, right) {
            Some(index) => left <= index < right && answers(index) == 0,
            None => forall|i: int| left <= i < right ==> #[trigger] answers(i) != 0,
        },
    decreases right - left,
{
    if left < right {
        let mid = left + (right - left) / 2;
        if answers(mid) == 0 {
        } else if answers(mid) < 0 {
            law_bisect_finds(answers, left, mid);
            assert forall|i: int| mid <= i < right implies #[trigger] answers(i) != 0 by {
                assert(answers(mid) < 0 ==> answers(i) < 0);
            }
        } else {
            law_bisect_finds(answers, mid + 1, right);
            assert forall|i: int| left <= i <= mid implies #[trigger] answers(i) != 0 by {
                assert(answers(mid) > 0 ==> answers(i) > 0);
            }
        }
    }
}

/// Whatever the order of the array, what bisection finds lies in the
/// range that is searched and equals the key.
pub proof fn law_bisect_hit_equals_key(answers: spec_fn(int) -> i32, left: int, right: int)
    ensures
        bisect(answers, left, right) matches Some(index) ==> left <= index < right && answers(index)
            == 0,
    decreases right - left,
{
    if left < right {
        let mid = left + (right - left) / 2;
        if answers(mid) == 0 {
        } else if answers(mid) < 0 {
            law_bisect_hit_equals_key(answers, left, mid);
        } else {
            law_bisect_hit_equals_key(answers, mid + 1, right);
        }
    }
}

/// Whether `order` orders the elements of `size` bytes: it compares any
/// two of them, carries over, and turns around with the elements.
pub open spec fn is_consistent_order(order: spec_fn(Seq<u8>, Seq<u8>) -> i32, size: nat) -> bool {
    &&& is_total_preorder(comes_first(order), size)
    &&& forall|a: Seq<u8>, b: Seq<u8>|
        a.len() == size && b.len() == size ==> (#[trigger] order(a, b) > 0) == (order(b, a) < 0)
}

/// An array that is sorted by an order of its elements is in order for
/// every key of the elements' size, so that bisection finds in it what is
/// there.
pub proof fn law_sorted_is_in_key_order(
    order: spec_fn(Seq<u8>, Seq<u8>) -> i32,
    key: Seq<u8>,
    bytes: Seq<u8>,
    size: usize,
    count: int,
)
    requires
        size > 0,
        key.len() == size,
        0 <= count <= row_count(bytes, size as int),
        is_consistent_order(order, size as nat),
        is_sorted(comes_first(order), rows(bytes, size as int), 0, count),
    ensures
        in_key_order(key_answers(order, key, bytes, size), 0, count),
        match bisect(key_answers(order, key, bytes, size), 0, count) {
            Some(index) => 0 <= index < count && order(key, row(bytes, size as int, index)) == 0,
            None => forall|i: int|
                0 <= i < count ==> order(key, #[trigger] row(bytes, size as int, i)) != 0,
        },
{
    let answers = key_answers(order, key, bytes, size);
    let le = comes_first(order);
    let all = rows(bytes, size as int);
    assert forall|i: int, j: int| 0 <= i <= j < count implies (#[trigger] answers(i) < 0
        ==> #[trigger] answers(j) < 0) && (answers(j) > 0 ==> answers(i) > 0) by {
        lemma_row_bounds(i, row_count(bytes, size as int), size as int);
        lemma_row_bounds(j, row_count(bytes, size as int), size as int);
        lemma_row_count(bytes, size as int, 0);
        let a = row(bytes, size as int, i);
        let b = row(bytes, size as int, j);
        assert(all[i] == a);
        assert(all[j] == b);
        assert(le(all[i], all[j]));
        assert(le(a, b));
        // What the order gives for the key and an element, both ways round.
        assert((order(key, a) > 0) == (order(a, key) < 0));
        assert((order(a, key) > 0) == (order(key, a) < 0));
        assert((order(key, b) > 0) == (order(b, key) < 0));
        assert((order(b, key) > 0) == (order(key, b) < 0));
        if answers(i) < 0 && !(answers(j) < 0) {
            // The key comes before `a` and not before `b`, which `a` comes before.
            assert(le(b, key));
            assert(le(a, b) && le(b, key) ==> le(a, key));
        }
        if answers(j) > 0 && !(answers(i) > 0) {
            assert(le(key, a));
            assert(le(key, a) && le(a, b) ==> le(key, b));
        }
    }
    law_bisect_finds(answers, 0, count);
    if bisect(answers, 0, count) is None {
        assert forall|i: int| 0 <= i < count implies order(
            key,
            #[trigger] row(bytes, size as int, i),
        ) != 0 by {
            assert(answers(i) != 0);
        }
    }
}

/// The result of a search as an index of machine size.
pub open spec fn found_index(found: Option<int>) -> Option<usize> {
    match found {
        Some(index) => Some(index as usize),
        None => None,
    }
}

/// Searches the first `nmemb` elements of `bytes` for the key.
fn search_rows<F: Fn(&[u8], &[u8]) -> i32>(
    key: &[u8],
    bytes: &[u8],
    nmemb: usize,
    size: usize,
    f: &F,
) -> (found: Option<usize>)
    requires
        size > 0,
        nmemb * size <= bytes@.len(),
        accepts_key(*f, key@, size),
    ensures
        found matches Some(index) ==> index < nmemb && may_answer(
            *f,
            key@,
            row(bytes@, size as int, index as int),
            0,
        ),
        forall|order: spec_fn(Seq<u8>, Seq<u8>) -> i32| #[trigger]
            answers_by(*f, order) ==> found == found_index(
                bisect(key_answers(order, key@, bytes@, size), 0, nmemb as int),
            ),
{
    let mut left: usize = 0;
    let mut right: usize = nmemb;
    proof {
        lemma_row_count(bytes@, size as int, nmemb as int);
    }
    while left < right
        invariant
            size > 0,
            accepts_key(*f, key@, size),
            left <= right <= nmemb,
            nmemb <= row_count(bytes@, size as int),
            forall|order: spec_fn(Seq<u8>, Seq<u8>) -> i32| #[trigger]
                answers_by(*f, order) ==> bisect(
                    key_answers(order, key@, bytes@, size),
                    left as int,
                    right as int,
                ) == bisect(key_answers(order, key@, bytes@, size), 0, nmemb as int),
        decreases right - left,
    {
        let mid = left + (right - left) / 2;
        let answer = ask_key(f, key, bytes, size, mid);
        if answer == 0 {
            return Some(mid);
        } else if answer < 0 {
            right = mid;
        } else {
            left = mid + 1;
        }
    }
    None
}

/// Searches an array of `nmemb` elements of `size` bytes each for an
/// element that equals `key`, and gives its index. The array has to be in
/// order for the key. Nothing is found where the array or the comparator
/// is null or `size` or `nmemb` is zero.
pub fn bsearch<F: Fn(&[u8], &[u8]) -> i32>(
    key: &[u8],
    base: Option<&[u8]>,
    nmemb: usize,
    size: usize,
    compar: Option<F>,
) -> (found: Option<usize>)
    requires
        base matches Some(bytes) ==> (compar matches Some(f) ==> (size > 0 && nmemb > 0 ==> nmemb
            * size <= bytes@.len() && accepts_key(f, key@, size))),
    ensures
        base is None || compar is None || size == 0 || nmemb == 0 ==> found is None,
        found matches Some(index) ==> index < nmemb && (base matches Some(bytes) ==> (
        compar matches Some(f) ==> may_answer(f, key@, row(bytes@, size as int, index as int), 0))),
        base matches Some(bytes) ==> (compar matches Some(f) ==> (size > 0 ==> forall|
            order: spec_fn(Seq<u8>, Seq<u8>) -> i32,
        | #[trigger]
            answers_by(f, order) ==> found == found_index(
                bisect(key_answers(order, key@, bytes@, size), 0, nmemb as int),
            ))),
{
    match base {
        None => None,
        Some(bytes) => match compar {
            None => None,
            Some(f) => {
                if size == 0 || nmemb == 0 {
                    None
                } else {
                    search_rows(key, bytes, nmemb, size, &f)
                }
            },
        },
    }
}

} // verus!
