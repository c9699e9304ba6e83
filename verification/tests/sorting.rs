use baremetal_platform::bsearch::bsearch;
use baremetal_platform::order::{ask, ask_key};
use baremetal_platform::quicksort::qsort;
use std::cell::RefCell;

fn by_first_byte(a: &[u8], b: &[u8]) -> i32 {
    i32::from(a[0]) - i32::from(b[0])
}

fn by_u32(a: &[u8], b: &[u8]) -> i32 {
    let x = u32::from_le_bytes([a[0], a[1], a[2], a[3]]);
    let y = u32::from_le_bytes([b[0], b[1], b[2], b[3]]);
    if x < y {
        -1
    } else if x > y {
        1
    } else {
        0
    }
}

fn words(values: &[u32]) -> Vec<u8> {
    let mut bytes = Vec::new();
    for value in values {
        bytes.extend_from_slice(&value.to_le_bytes());
    }
    bytes
}

fn sorted_words(values: &[u32]) -> Vec<u8> {
    let mut bytes = words(values);
    qsort(Some(&mut bytes), values.len(), 4, by_u32);
    bytes
}

#[test]
fn sorting_nothing_and_one_element() {
    assert_eq!(sorted_words(&[]), words(&[]));
    assert_eq!(sorted_words(&[7]), words(&[7]));
}

#[test]
fn sorting_distinct_elements() {
    assert_eq!(sorted_words(&[3, 1, 2]), words(&[1, 2, 3]));
    assert_eq!(sorted_words(&[2, 1]), words(&[1, 2]));
    assert_eq!(
        sorted_words(&[900, 5, 70_000, 0, 4_000_000_000, 12, 256, 255]),
        words(&[0, 5, 12, 255, 256, 900, 70_000, 4_000_000_000])
    );
}

#[test]
fn sorting_with_equal_elements() {
    assert_eq!(sorted_words(&[5, 1, 5, 1, 5]), words(&[1, 1, 5, 5, 5]));
    assert_eq!(sorted_words(&[4, 4, 4, 4]), words(&[4, 4, 4, 4]));
}

#[test]
fn sorting_what_is_sorted_or_reversed() {
    assert_eq!(sorted_words(&[1, 2, 3, 4, 5, 6]), words(&[1, 2, 3, 4, 5, 6]));
    assert_eq!(sorted_words(&[6, 5, 4, 3, 2, 1]), words(&[1, 2, 3, 4, 5, 6]));
}

#[test]
fn a_sorted_array_never_falls() {
    let mut state: u32 = 12345;
    let mut values = Vec::new();
    for _ in 0..200 {
        state = state.wrapping_mul(1_664_525).wrapping_add(1_013_904_223);
        values.push(state % 50);
    }
    let bytes = sorted_words(&values);
    let mut expected = values.clone();
    expected.sort();
    assert_eq!(bytes, words(&expected));
    for index in 1..values.len() {
        assert!(ask(&by_u32, &bytes, 4, index - 1, index) <= 0);
    }
}

#[test]
fn the_sort_parts_around_the_last_element() {
    // Elements are two bytes; only the first byte counts. The second byte
    // shows where equal elements end up.
    let mut bytes = vec![2, b'a', 1, b'b', 2, b'c', 1, b'd', 2, b'e'];
    qsort(Some(&mut bytes), 5, 2, by_first_byte);
    assert_eq!(bytes, vec![1, b'b', 1, b'd', 2, b'c', 2, b'a', 2, b'e']);
}

#[test]
fn the_comparator_is_asked_in_the_order_of_the_pass() {
    let asked: RefCell<Vec<(u8, u8)>> = RefCell::new(Vec::new());
    let mut bytes = vec![3u8, 1, 2];
    qsort(Some(&mut bytes), 3, 1, |a: &[u8], b: &[u8]| {
        asked.borrow_mut().push((a[0], b[0]));
        i32::from(a[0]) - i32::from(b[0])
    });
    assert_eq!(bytes, vec![1, 2, 3]);
    assert_eq!(asked.into_inner(), vec![(3, 2), (1, 2)]);
}

#[test]
fn only_the_first_elements_are_sorted() {
    let mut bytes = vec![9, 8, 7, 6, 5, 4];
    qsort(Some(&mut bytes), 4, 1, by_first_byte);
    assert_eq!(bytes, vec![6, 7, 8, 9, 5, 4]);
    let mut bytes = words(&[3, 2, 1]);
    bytes.push(0xee);
    qsort(Some(&mut bytes), 2, 4, by_u32);
    let mut expected = words(&[2, 3, 1]);
    expected.push(0xee);
    assert_eq!(bytes, expected);
}

#[test]
fn sorting_null_or_nothing_does_nothing() {
    qsort(None, 3, 4, by_u32);
    let mut bytes = vec![3, 2, 1];
    qsort(Some(&mut bytes), 0, 1, by_first_byte);
    assert_eq!(bytes, vec![3, 2, 1]);
    qsort(Some(&mut bytes), 3, 0, by_first_byte);
    assert_eq!(bytes, vec![3, 2, 1]);
}

#[test]
fn search_finds_an_element_that_is_there() {
    let bytes = words(&[10, 20, 30, 40, 50]);
    for (index, value) in [10u32, 20, 30, 40, 50].iter().enumerate() {
        let key = value.to_le_bytes();
        assert_eq!(bsearch(&key, Some(&bytes), 5, 4, Some(by_u32)), Some(index));
    }
}

#[test]
fn search_finds_nothing_that_is_not_there() {
    let bytes = words(&[10, 20, 30, 40, 50]);
    for value in [0u32, 15, 25, 35, 45, 60] {
        let key = value.to_le_bytes();
        assert_eq!(bsearch(&key, Some(&bytes), 5, 4, Some(by_u32)), None);
    }
    assert_eq!(bsearch(&[1, 0, 0, 0], Some(&bytes), 0, 4, Some(by_u32)), None);
}

#[test]
fn search_gives_the_first_equal_element_it_meets() {
    let bytes = vec![1u8, 2, 2, 2, 2, 3, 3];
    assert_eq!(bsearch(&[2], Some(&bytes), 7, 1, Some(by_first_byte)), Some(3));
    assert_eq!(bsearch(&[3], Some(&bytes), 7, 1, Some(by_first_byte)), Some(5));
    assert_eq!(bsearch(&[1], Some(&bytes), 7, 1, Some(by_first_byte)), Some(0));
    let found = bsearch(&[2], Some(&bytes), 7, 1, Some(by_first_byte)).unwrap();
    assert_eq!(ask_key(&by_first_byte, &[2], &bytes, 1, found), 0);
}

#[test]
fn search_looks_at_the_first_elements_only() {
    let bytes = vec![1u8, 2, 3, 4, 5];
    assert_eq!(bsearch(&[4], Some(&bytes), 3, 1, Some(by_first_byte)), None);
    assert_eq!(bsearch(&[3], Some(&bytes), 3, 1, Some(by_first_byte)), Some(2));
}

#[test]
fn search_without_array_comparator_or_size_finds_nothing() {
    let bytes = vec![1u8, 2, 3];
    assert_eq!(bsearch(&[2], None, 3, 1, Some(by_first_byte)), None);
    assert_eq!(bsearch(&[2], Some(&bytes), 3, 1, None::<fn(&[u8], &[u8]) -> i32>), None);
    assert_eq!(bsearch(&[2], Some(&bytes), 3, 0, Some(by_first_byte)), None);
}

#[test]
fn the_key_needs_not_have_the_size_of_an_element() {
    let bytes = words(&[100, 200, 300]);
    let found = bsearch(&[200], Some(&bytes), 3, 4, Some(|key: &[u8], element: &[u8]| {
        i32::from(key[0]) - i32::from(element[0])
    }));
    assert_eq!(found, Some(1));
}

#[test]
fn search_in_a_sorted_array() {
    let values = [5u32, 1, 4, 1, 3, 9, 2, 6];
    let bytes = sorted_words(&values);
    for value in values {
        let key = value.to_le_bytes();
        let found = bsearch(&key, Some(&bytes), values.len(), 4, Some(by_u32)).unwrap();
        assert_eq!(bytes[found * 4..found * 4 + 4], key);
    }
    assert_eq!(bsearch(&7u32.to_le_bytes(), Some(&bytes), values.len(), 4, Some(by_u32)), None);
}
