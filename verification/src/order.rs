//! Comparators and the arrays they order.
//!
//! An array is a run of bytes cut into elements of one size. A comparator
//! takes two elements and answers with a negative number, zero or a
//! positive number: the first comes before the second, the two are equal,
//! or the first comes behind the second.

use vstd::prelude::*;
use vstd::slice::slice_subrange;

verus! {

/// Whether the comparator `f` can answer `answer` when it is asked about
/// the bytes `a` and `b`.
pub open spec fn may_answer<F: Fn(&[u8], &[u8]) -> i32>(
    f: F,
    a: Seq<u8>,
    b: Seq<u8>,
    answer: i32,
) -> bool {
    exists|x: &[u8], y: &[u8]| x@ == a && y@ == b && #[trigger] call_ensures(f, (x, y), answer)
}

/// Whether the comparator `f` answers by `order`: whatever it is asked
/// about, its answer is what `order` gives for the bytes.
pub open spec fn answers_by<F: Fn(&[u8], &[u8]) -> i32>(
    f: F,
    order: spec_fn(Seq<u8>, Seq<u8>) -> i32,
) -> bool {
    forall|x: &[u8], y: &[u8], answer: i32| #[trigger]
        call_ensures(f, (x, y), answer) ==> answer == order(x@, y@)
}

/// Whether the comparator `f` may be asked about any two elements of
/// `size` bytes.
pub open spec fn accepts<F: Fn(&[u8], &[u8]) -> i32>(f: F, size: usize) -> bool {
    forall|x: &[u8], y: &[u8]|
        x@.len() == size && y@.len() == size ==> #[trigger] call_requires(f, (x, y))
}

/// Whether the comparator `f` may be asked about the key `key` and any
/// element of `size` bytes.
pub open spec fn accepts_key<F: Fn(&[u8], &[u8]) -> i32>(f: F, key: Seq<u8>, size: usize) -> bool {
    forall|x: &[u8], y: &[u8]|
        x@ == key && y@.len() == size ==> #[trigger] call_requires(f, (x, y))
}

/// The number of whole elements of `size` bytes in `bytes`.
pub open spec fn row_count(bytes: Seq<u8>, size: int) -> int {
    if size > 0 {
        (bytes.len() as int) / size
    } else {
        0
    }
}

/// The element of `size` bytes at `index`.
pub open spec fn row(bytes: Seq<u8>, size: int, index: int) -> Seq<u8> {
    bytes.subrange(index * size, index * size + size)
}

/// The whole elements of `size` bytes in `bytes`, in order.
pub open spec fn rows(bytes: Seq<u8>, size: int) -> Seq<Seq<u8>> {
    Seq::new(row_count(bytes, size) as nat, |index: int| row(bytes, size, index))
}

/// An element that lies before the `count`-th lies inside the first
/// `count` elements.
pub proof fn lemma_row_bounds(index: int, count: int, size: int)
    requires
        0 <= index < count,
        size > 0,
    ensures
        0 <= index * size,
        index * size + size <= count * size,
{
    assert(0 <= index * size) by (nonlinear_arith)
        requires
            0 <= index,
            size > 0,
    ;
    assert(index * size + size <= count * size) by (nonlinear_arith)
        requires
            index + 1 <= count,
            size > 0,
    ;
}

/// Bytes that hold `count` elements have at least `count` rows.
pub proof fn lemma_row_count(bytes: Seq<u8>, size: int, count: int)
    requires
        size > 0,
        0 <= count,
        count * size <= bytes.len(),
    ensures
        count <= row_count(bytes, size),
        row_count(bytes, size) * size <= bytes.len(),
        row_count(bytes, size) <= bytes.len(),
        rows(bytes, size).len() == row_count(bytes, size),
{
    let len = bytes.len() as int;
    vstd::arithmetic::div_mod::lemma_fundamental_div_mod(len, size);
    assert(size * (len / size) == (len / size) * size) by (nonlinear_arith);
    assert(count <= len / size) by (nonlinear_arith)
        requires
            count * size <= len,
            size > 0,
            len == size * (len / size) + len % size,
            0 <= len % size < size,
    ;
    assert(len / size <= len) by (nonlinear_arith)
        requires
            (len / size) * size <= len,
            size > 0,
            0 <= len / size,
    ;
}

/// Asks the comparator about the elements at `first` and `second`.
pub fn ask<F: Fn(&[u8], &[u8]) -> i32>(
    f: &F,
    bytes: &[u8],
    size: usize,
    first: usize,
    second: usize,
) -> (answer: i32)
    requires
        size > 0,
        accepts(*f, size),
        first < row_count(bytes@, size as int),
        second < row_count(bytes@, size as int),
    ensures
        may_answer(
            *f,
            row(bytes@, size as int, first as int),
            row(bytes@, size as int, second as int),
            answer,
        ),
        forall|order: spec_fn(Seq<u8>, Seq<u8>) -> i32| #[trigger]
            answers_by(*f, order) ==> answer == order(
                row(bytes@, size as int, first as int),
                row(bytes@, size as int, second as int),
            ),
{
    let len = bytes.len();
    proof {
        lemma_row_count(bytes@, size as int, 0);
        lemma_row_bounds(first as int, row_count(bytes@, size as int), size as int);
        lemma_row_bounds(second as int, row_count(bytes@, size as int), size as int);
    }
    let x = slice_subrange(bytes, first * size, first * size + size);
    let y = slice_subrange(bytes, second * size, second * size + size);
    f(x, y)
}

/// Asks the comparator about a key and the element at `index`.
pub fn ask_key<F: Fn(&[u8], &[u8]) -> i32>(
    f: &F,
    key: &[u8],
    bytes: &[u8],
    size: usize,
    index: usize,
) -> (answer: i32)
    requires
        size > 0,
        accepts_key(*f, key@, size),
        index < row_count(bytes@, size as int),
    ensures
        may_answer(*f, key@, row(bytes@, size as int, index as int), answer),
        forall|order: spec_fn(Seq<u8>, Seq<u8>) -> i32| #[trigger]
            answers_by(*f, order) ==> answer == order(
                key@,
                row(bytes@, size as int, index as int),
            ),
{
    let len = bytes.len();
    proof {
        lemma_row_count(bytes@, size as int, 0);
        lemma_row_bounds(index as int, row_count(bytes@, size as int), size as int);
    }
    let y = slice_subrange(bytes, index * size, index * size + size);
    f(key, y)
}

} // verus!
