use baremetal_platform::allocation::{os_free, os_malloc, owns_block};
use baremetal_platform::arena::Arena;
use baremetal_platform::memory_mapping::{
    align_up, os_getpagesize, os_mmap, os_mprotect, os_mremap, os_munmap, owns_mapping, PAGE_SIZE,
};

const ORIGIN: usize = 0x2000_0100;
const FIRST_PAGE: usize = 0x2000_1000;

fn paged_arena(pages: usize) -> Arena {
    Arena::new(ORIGIN, pages * 4096 + 0xf00)
}

fn map(arena: &mut Arena, size: usize) -> usize {
    os_mmap(arena, 0, size, 3, 0x22, -1)
}

#[test]
fn page_size_is_4096() {
    assert_eq!(os_getpagesize(), 4096);
    assert_eq!(PAGE_SIZE, 4096);
}

#[test]
fn sizes_are_rounded_up_to_pages() {
    assert_eq!(align_up(0), 0);
    assert_eq!(align_up(1), 4096);
    assert_eq!(align_up(4095), 4096);
    assert_eq!(align_up(4096), 4096);
    assert_eq!(align_up(4097), 8192);
    assert_eq!(align_up(3 * 4096), 3 * 4096);
    assert_eq!(align_up(usize::MAX - 4095), usize::MAX - 4095);
}

#[test]
fn mapping_nothing_gives_null() {
    let mut arena = paged_arena(2);
    assert_eq!(map(&mut arena, 0), 0);
}

#[test]
fn mappings_are_whole_pages_of_zeros() {
    for size in [1usize, 100, 4095, 4096, 4097, 8192, 3 * 4096 - 1, 3 * 4096] {
        let mut arena = paged_arena(4);
        arena.fill(ORIGIN, arena.capacity(), 0xcc);
        let addr = map(&mut arena, size);
        assert_eq!(addr, FIRST_PAGE);
        let aligned = align_up(size);
        assert!(aligned >= size);
        assert!(arena.is_live(addr, aligned, 4096));
        assert!(owns_mapping(&arena, addr, size));
        assert_eq!(arena.read(addr, aligned), vec![0u8; aligned]);
        assert_eq!(arena.load(addr - 1), 0xcc);
        if arena.contains(addr + aligned, 1) {
            assert_eq!(arena.load(addr + aligned), 0xcc);
        }
    }
}

#[test]
fn hint_protection_flags_and_file_are_not_used() {
    let mut one = paged_arena(2);
    let mut other = paged_arena(2);
    let a = os_mmap(&mut one, 0, 10, 0, 0, -1);
    let b = os_mmap(&mut other, 0x4000_0000, 10, 7, 0x1234, 5);
    assert_eq!(a, b);
    assert_eq!(a, FIRST_PAGE);
}

#[test]
fn mapping_fails_when_no_page_is_free() {
    let mut arena = paged_arena(2);
    assert_eq!(map(&mut arena, 2 * 4096 + 1), 0);
    assert_eq!(map(&mut arena, 4097), FIRST_PAGE);
    assert_eq!(map(&mut arena, 1), 0);
    os_munmap(&mut arena, FIRST_PAGE, 4097);
    assert_eq!(map(&mut arena, 1), FIRST_PAGE);
    assert_eq!(map(&mut arena, 1), FIRST_PAGE + 4096);
}

#[test]
fn mapping_beyond_the_address_space_gives_null() {
    let mut arena = paged_arena(2);
    assert_eq!(map(&mut arena, usize::MAX), 0);
    assert_eq!(map(&mut arena, usize::MAX - 4094), 0);
    assert_eq!(map(&mut arena, usize::MAX - 4095), 0);
}

#[test]
fn unmapping_releases_the_pages() {
    let mut arena = paged_arena(4);
    let a = map(&mut arena, 5000);
    assert!(owns_mapping(&arena, a, 5000));
    assert!(owns_mapping(&arena, a, 8192));
    assert!(!owns_mapping(&arena, a, 4096));
    os_munmap(&mut arena, a, 5000);
    assert!(!owns_mapping(&arena, a, 5000));
    assert!(!arena.is_live(a, 8192, 4096));
}

#[test]
fn unmapping_null_or_nothing_changes_nothing() {
    let mut arena = paged_arena(4);
    let a = map(&mut arena, 100);
    os_munmap(&mut arena, 0, 100);
    os_munmap(&mut arena, a, 0);
    assert!(owns_mapping(&arena, a, 100));
}

#[test]
fn protection_is_accepted() {
    assert_eq!(os_mprotect(FIRST_PAGE, 4096, 1), 0);
    assert_eq!(os_mprotect(FIRST_PAGE, 4096, 0), 0);
    assert_eq!(os_mprotect(FIRST_PAGE + 4096, 1, 7), 0);
}

#[test]
fn remapping_to_more_keeps_the_bytes() {
    let mut arena = paged_arena(8);
    let a = map(&mut arena, 4096);
    let data: Vec<u8> = (0..4096usize).map(|i| (i % 251) as u8).collect();
    arena.write(a, &data);
    let b = os_mremap(&mut arena, a, 4096, 10000);
    assert_eq!(b, FIRST_PAGE + 4096);
    assert_eq!(arena.read(b, 4096), data);
    assert_eq!(arena.read(b + 4096, 8192), vec![0u8; 8192]);
    assert!(owns_mapping(&arena, b, 10000));
    assert!(!owns_mapping(&arena, a, 4096));
}

#[test]
fn remapping_to_less_keeps_the_first_bytes() {
    let mut arena = paged_arena(8);
    let a = map(&mut arena, 3 * 4096);
    let data: Vec<u8> = (0..3 * 4096usize).map(|i| (i % 253) as u8).collect();
    arena.write(a, &data);
    let b = os_mremap(&mut arena, a, 3 * 4096, 100);
    assert_eq!(b, FIRST_PAGE + 3 * 4096);
    assert_eq!(arena.read(b, 100), data[..100].to_vec());
    assert_eq!(arena.read(b + 100, 3996), vec![0u8; 3996]);
    assert!(owns_mapping(&arena, b, 100));
    assert!(!owns_mapping(&arena, a, 3 * 4096));
    assert_eq!(map(&mut arena, 3 * 4096), a);
}

#[test]
fn the_new_mapping_shares_no_byte_with_the_old_one() {
    let mut arena = paged_arena(8);
    let a = map(&mut arena, 2 * 4096);
    let b = os_mremap(&mut arena, a, 2 * 4096, 2 * 4096);
    assert_ne!(b, 0);
    assert!(b >= a + 2 * 4096 || b + 2 * 4096 <= a);
}

#[test]
fn remapping_null_gives_null() {
    let mut arena = paged_arena(4);
    assert_eq!(os_mremap(&mut arena, 0, 4096, 4096), 0);
    assert_eq!(map(&mut arena, 1), FIRST_PAGE);
}

#[test]
fn remapping_that_fails_leaves_the_mapping() {
    let mut arena = paged_arena(2);
    let a = map(&mut arena, 4096);
    arena.write(a, &[5u8; 16]);
    assert_eq!(os_mremap(&mut arena, a, 4096, 2 * 4096), 0);
    assert_eq!(os_mremap(&mut arena, a, 4096, 0), 0);
    assert!(owns_mapping(&arena, a, 4096));
    assert_eq!(arena.read(a, 16), vec![5u8; 16]);
}

#[test]
fn blocks_and_mappings_share_the_arena() {
    let mut arena = paged_arena(4);
    let p = os_malloc(&mut arena, 100);
    assert_eq!(p, ORIGIN + 8);
    let a = map(&mut arena, 4096);
    assert_eq!(a, FIRST_PAGE);
    let q = os_malloc(&mut arena, 0xf00);
    assert_eq!(q, FIRST_PAGE + 4096 + 8);
    arena.write(p, &[1u8; 100]);
    arena.write(a, &[2u8; 4096]);
    arena.write(q, &[3u8; 0xf00]);
    assert_eq!(arena.read(p, 100), vec![1u8; 100]);
    assert_eq!(arena.read(a, 4096), vec![2u8; 4096]);
    assert!(owns_block(&arena, p));
    assert!(owns_block(&arena, q));
    assert!(owns_mapping(&arena, a, 4096));
    os_munmap(&mut arena, a, 4096);
    os_free(&mut arena, p);
    assert!(owns_block(&arena, q));
    assert_eq!(arena.read(q, 0xf00), vec![3u8; 0xf00]);
}
