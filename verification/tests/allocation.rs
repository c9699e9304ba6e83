use baremetal_platform::allocation::{
    os_free, os_malloc, os_realloc, owns_block, size_header_offset, HEADER_SIZE, MIN_ALIGN,
};
use baremetal_platform::arena::Arena;

const ORIGIN: usize = 0x2000_0000;

fn arena(capacity: usize) -> Arena {
    Arena::new(ORIGIN, capacity)
}

fn pattern(len: usize, seed: u8) -> Vec<u8> {
    let mut data = Vec::with_capacity(len);
    let mut value = seed;
    for _ in 0..len {
        data.push(value);
        value = value.wrapping_mul(31).wrapping_add(7);
    }
    data
}

#[test]
fn header_is_eight_bytes() {
    assert_eq!(size_header_offset(), 8);
    assert_eq!(HEADER_SIZE, 8);
    assert_eq!(MIN_ALIGN, 8);
}

#[test]
fn request_for_nothing_gives_null() {
    let mut arena = arena(1024);
    assert_eq!(os_malloc(&mut arena, 0), 0);
    assert!(!arena.is_live(ORIGIN, 8, 8));
}

#[test]
fn first_block_lies_behind_its_header_at_the_origin() {
    let mut arena = arena(1024);
    let p = os_malloc(&mut arena, 10);
    assert_eq!(p, ORIGIN + 8);
    assert!(arena.is_live(ORIGIN, 18, 8));
    assert_eq!(arena.read(ORIGIN, 8), vec![18, 0, 0, 0, 0, 0, 0, 0]);
    assert!(owns_block(&arena, p));
}

#[test]
fn blocks_are_aligned_to_eight_bytes() {
    let mut arena = arena(1024);
    let p = os_malloc(&mut arena, 1);
    let q = os_malloc(&mut arena, 3);
    let r = os_malloc(&mut arena, 16);
    assert_eq!(p, ORIGIN + 8);
    assert_eq!(q, ORIGIN + 24);
    assert_eq!(r, ORIGIN + 40);
    assert_eq!(p % 8, 0);
    assert_eq!(q % 8, 0);
    assert_eq!(r % 8, 0);
}

#[test]
fn what_is_written_to_a_block_is_read_back() {
    let mut arena = arena(4096);
    for size in [1usize, 2, 7, 8, 9, 64, 1000] {
        let p = os_malloc(&mut arena, size);
        assert_ne!(p, 0);
        let data = pattern(size, 3);
        arena.write(p, &data);
        assert_eq!(arena.read(p, size), data);
        assert!(owns_block(&arena, p));
        os_free(&mut arena, p);
        assert!(!owns_block(&arena, p));
        let again = os_malloc(&mut arena, size);
        assert_eq!(again, p);
        os_free(&mut arena, again);
    }
}

#[test]
fn writing_one_block_leaves_the_others() {
    let mut arena = arena(1024);
    let p = os_malloc(&mut arena, 16);
    let q = os_malloc(&mut arena, 16);
    arena.write(p, &[1u8; 16]);
    arena.write(q, &[2u8; 16]);
    assert_eq!(arena.read(p, 16), vec![1u8; 16]);
    assert_eq!(arena.read(q, 16), vec![2u8; 16]);
    assert!(owns_block(&arena, p));
    assert!(owns_block(&arena, q));
}

#[test]
fn request_fails_when_the_arena_has_no_room() {
    let mut arena = arena(64);
    assert_eq!(os_malloc(&mut arena, 57), 0);
    let p = os_malloc(&mut arena, 56);
    assert_eq!(p, ORIGIN + 8);
    assert_eq!(os_malloc(&mut arena, 1), 0);
    os_free(&mut arena, p);
    assert_eq!(os_malloc(&mut arena, 1), ORIGIN + 8);
}

#[test]
fn request_beyond_the_address_space_gives_null() {
    let mut arena = arena(64);
    assert_eq!(os_malloc(&mut arena, usize::MAX), 0);
    assert_eq!(os_malloc(&mut arena, usize::MAX - 7), 0);
    assert_eq!(os_malloc(&mut arena, usize::MAX - 8), 0);
}

#[test]
fn freed_room_is_used_again_at_the_lowest_address() {
    let mut arena = arena(1024);
    let p = os_malloc(&mut arena, 8);
    let q = os_malloc(&mut arena, 8);
    let r = os_malloc(&mut arena, 8);
    assert_eq!((p, q, r), (ORIGIN + 8, ORIGIN + 24, ORIGIN + 40));
    os_free(&mut arena, q);
    assert_eq!(os_malloc(&mut arena, 9), ORIGIN + 56);
    assert_eq!(os_malloc(&mut arena, 8), ORIGIN + 24);
    os_free(&mut arena, p);
    assert_eq!(os_malloc(&mut arena, 4), ORIGIN + 8);
}

#[test]
fn freeing_null_changes_nothing() {
    let mut arena = arena(256);
    let p = os_malloc(&mut arena, 8);
    os_free(&mut arena, 0);
    assert!(owns_block(&arena, p));
    assert_eq!(os_malloc(&mut arena, 8), ORIGIN + 24);
}

#[test]
fn resizing_null_is_a_request() {
    let mut arena = arena(256);
    let p = os_realloc(&mut arena, 0, 12);
    assert_eq!(p, ORIGIN + 8);
    assert!(arena.is_live(ORIGIN, 20, 8));
    assert_eq!(os_realloc(&mut arena, 0, 0), 0);
}

#[test]
fn resizing_to_nothing_frees() {
    let mut arena = arena(256);
    let p = os_malloc(&mut arena, 12);
    assert_eq!(os_realloc(&mut arena, p, 0), 0);
    assert!(!owns_block(&arena, p));
    assert!(!arena.is_live(ORIGIN, 20, 8));
}

#[test]
fn resizing_to_the_same_size_gives_the_same_block() {
    let mut arena = arena(256);
    let p = os_malloc(&mut arena, 12);
    let data = pattern(12, 9);
    arena.write(p, &data);
    assert_eq!(os_realloc(&mut arena, p, 12), p);
    assert_eq!(arena.read(p, 12), data);
    assert!(owns_block(&arena, p));
    assert_eq!(os_malloc(&mut arena, 1), ORIGIN + 32);
}

#[test]
fn shrinking_keeps_the_first_bytes() {
    let mut arena = arena(1024);
    let p = os_malloc(&mut arena, 100);
    let data = pattern(100, 5);
    arena.write(p, &data);
    let q = os_realloc(&mut arena, p, 40);
    assert_ne!(q, 0);
    assert_ne!(q, p);
    assert_eq!(arena.read(q, 40), data[..40].to_vec());
    assert!(owns_block(&arena, q));
    assert!(!owns_block(&arena, p));
    assert!(arena.is_live(q - 8, 48, 8));
    assert!(!arena.is_live(p - 8, 108, 8));
}

#[test]
fn growing_keeps_all_bytes() {
    let mut arena = arena(1024);
    let p = os_malloc(&mut arena, 24);
    let data = pattern(24, 11);
    arena.write(p, &data);
    let q = os_realloc(&mut arena, p, 200);
    assert_eq!(q, ORIGIN + 40);
    assert_eq!(arena.read(q, 24), data);
    assert!(!owns_block(&arena, p));
    assert!(arena.is_live(q - 8, 208, 8));
}

#[test]
fn resizing_that_fails_leaves_the_block() {
    let mut arena = arena(128);
    let p = os_malloc(&mut arena, 64);
    let data = pattern(64, 1);
    arena.write(p, &data);
    assert_eq!(os_realloc(&mut arena, p, 100), 0);
    assert!(owns_block(&arena, p));
    assert_eq!(arena.read(p, 64), data);
    os_free(&mut arena, p);
    assert!(!owns_block(&arena, p));
}

#[test]
fn an_address_that_is_no_block_is_not_owned() {
    let mut arena = arena(256);
    let p = os_malloc(&mut arena, 16);
    assert!(!owns_block(&arena, 0));
    assert!(!owns_block(&arena, 4));
    assert!(!owns_block(&arena, p + 1));
    assert!(!owns_block(&arena, p + 8));
    assert!(!owns_block(&arena, ORIGIN));
    assert!(!owns_block(&arena, ORIGIN + 1000));
    assert!(!owns_block(&arena, usize::MAX));
}

#[test]
fn a_block_with_an_overwritten_header_is_not_owned() {
    let mut arena = arena(256);
    let p = os_malloc(&mut arena, 16);
    arena.store(p - 8, 25);
    assert!(!owns_block(&arena, p));
    arena.store(p - 8, 24);
    assert!(owns_block(&arena, p));
}
