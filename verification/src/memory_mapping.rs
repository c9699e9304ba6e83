//! Mapped regions: whole pages out of the arena.
//!
//! There is no memory-management unit here, so a mapping is a region of the
//! arena whose size is a multiple of the page size and which is aligned to
//! a page. It is filled with zeros when it is made. Protection cannot be
//! enforced and is accepted without effect.

use crate::allocation::smaller;
use crate::arena::{
    apart, lemma_bytes_kept, lemma_bytes_written, lemma_lowest_fit, Arena, ArenaView, Region,
};
use vstd::prelude::*;

verus! {

/// Bytes of a page.
pub const PAGE_SIZE: usize = 4096;

/// `size` rounded up to whole pages.
pub open spec fn page_align_up(size: usize) -> int {
    (size + PAGE_SIZE - 1) / (PAGE_SIZE as int) * PAGE_SIZE
}

/// `len` zero bytes.
pub open spec fn zeros(len: int) -> Seq<u8> {
    Seq::new(len as nat, |i: int| 0u8)
}

/// The region that a mapping of `size` bytes at `addr` takes.
pub open spec fn mapped_region(addr: usize, size: usize) -> Region {
    Region { base: addr, size: page_align_up(size) as usize, align: PAGE_SIZE }
}

/// Whether `addr` is the address of a mapping that was made with `size`.
pub open spec fn is_mapping(view: ArenaView, addr: usize, size: usize) -> bool {
    &&& size > 0
    &&& size + PAGE_SIZE - 1 <= usize::MAX
    &&& view.live.contains(mapped_region(addr, size))
}

/// The rounded size is a multiple of the page size, not below the size and
/// less than a page above it.
pub proof fn lemma_page_align_up(size: usize)
    ensures
        size <= page_align_up(size) < size + PAGE_SIZE,
        page_align_up(size) % (PAGE_SIZE as int) == 0,
        size > 0 ==> page_align_up(size) >= PAGE_SIZE,
{
}

/// The arena and the address that mapping `size` bytes gives.
///
/// A mapping of nothing gives the null address, as does one that the arena
/// cannot serve; the arena is then as before. Otherwise the mapping lies at
/// the lowest page address that fits and all of its bytes are zero.
pub open spec fn mmap_model(view: ArenaView, size: usize) -> (ArenaView, usize) {
    if size == 0 || size + PAGE_SIZE - 1 > usize::MAX {
        (view, 0)
    } else {
        match view.lowest_fit(page_align_up(size), PAGE_SIZE as int) {
            None => (view, 0),
            Some(base) => (
                view.with_region(mapped_region(base, size)).with_bytes(
                    base as int,
                    zeros(page_align_up(size)),
                ),
                base,
            ),
        }
    }
}

/// The arena after the mapping of `size` bytes at `addr` is released; the
/// same arena for the null address or the size zero.
pub open spec fn munmap_model(view: ArenaView, addr: usize, size: usize) -> ArenaView {
    if addr == 0 || size == 0 || size + PAGE_SIZE - 1 > usize::MAX {
        view
    } else {
        view.without_region(mapped_region(addr, size))
    }
}

/// The arena and the address that remapping gives.
///
/// A new mapping of `new_size` bytes is made, as many bytes as the old and
/// the new size both cover are copied into it, and the old mapping is
/// released. For the null address, and where the new mapping cannot be
/// made, nothing changes and the address is null.
pub open spec fn mremap_model(
    view: ArenaView,
    old_addr: usize,
    old_size: usize,
    new_size: usize,
) -> (ArenaView, usize) {
    if old_addr == 0 {
        (view, 0)
    } else {
        let (mapped, fresh) = mmap_model(view, new_size);
        if fresh == 0 {
            (view, 0)
        } else {
            let kept = smaller(old_size as int, new_size as int);
            let moved = if kept > 0 {
                mapped.with_bytes(fresh as int, view.bytes(old_addr as int, kept))
            } else {
                mapped
            };
            (munmap_model(moved, old_addr, old_size), fresh)
        }
    }
}

/// Rounds `size` up to whole pages.
pub fn align_up(size: usize) -> (aligned: usize)
    requires
        size + PAGE_SIZE - 1 <= usize::MAX,
    ensures
        aligned == page_align_up(size),
{
    let padded: usize = size + (PAGE_SIZE - 1);
    let aligned: usize = padded & !(PAGE_SIZE - 1);
    assert(padded & !4095usize == padded / 4096usize * 4096usize) by (bit_vector);
    aligned
}

/// Maps `size` bytes. The hint, the protection, the flags and the file are
/// not used.
pub fn os_mmap(
    arena: &mut Arena,
    hint: usize,
    size: usize,
    prot: i32,
    flags: i32,
    file: i32,
) -> (addr: usize)
    requires
        old(arena).wf(),
    ensures
        final(arena).wf(),
        final(arena)@ == mmap_model(old(arena)@, size).0,
        addr == mmap_model(old(arena)@, size).1,
{
    if size == 0 || size > usize::MAX - (PAGE_SIZE - 1) {
        return 0;
    }
    let aligned_size = align_up(size);
    let addr = arena.allocate(aligned_size, PAGE_SIZE);
    if addr == 0 {
        proof {
            lemma_lowest_fit(old(arena)@, aligned_size as int, PAGE_SIZE as int);
        }
        return 0;
    }
    arena.fill(addr, aligned_size, 0);
    addr
}

/// Releases the mapping at `addr`, which was made with `size`.
pub fn os_munmap(arena: &mut Arena, addr: usize, size: usize)
    requires
        old(arena).wf(),
        addr == 0 || size == 0 || is_mapping(old(arena)@, addr, size),
    ensures
        final(arena).wf(),
        final(arena)@ == munmap_model(old(arena)@, addr, size),
{
    if addr == 0 || size == 0 || size > usize::MAX - (PAGE_SIZE - 1) {
        return ;
    }
    let aligned_size = align_up(size);
    arena.deallocate(addr, aligned_size, PAGE_SIZE);
}

/// Accepts a change of protection; nothing enforces it. The status is
/// always zero.
pub fn os_mprotect(addr: usize, size: usize, prot: i32) -> (status: i32)
    ensures
        status == 0,
{
    0
}

/// The page size.
pub fn os_getpagesize() -> (size: i32)
    ensures
        size == PAGE_SIZE,
{
    4096
}

/// What holds of the arena after a mapping was made: the mapping is a
/// region of whole pages that holds only zeros, it lies apart from every
/// region that was handed out before, and what was stored outside of it is
/// as before.
pub proof fn lemma_mmap_region(view: ArenaView, size: usize)
    requires
        view.wf(),
        mmap_model(view, size).1 != 0,
    ensures
        ({
            let (after, addr) = mmap_model(view, size);
            let region = mapped_region(addr, size);
            &&& after.wf()
            &&& is_mapping(after, addr, size)
            &&& region.size >= size
            &&& after.in_pool(addr as int, region.size as int)
            &&& after.bytes(addr as int, region.size as int) == zeros(region.size as int)
            &&& after.live == view.live.insert(region)
            &&& !view.live.contains(region)
            &&& view.fits(addr as int, region.size as int, PAGE_SIZE as int)
            &&& after.origin == view.origin
            &&& after.contents.len() == view.contents.len()
            &&& forall|other: int, len: int|
                view.in_pool(other, len) && apart(other, len, addr as int, region.size as int)
                    ==> #[trigger] after.bytes(other, len) == view.bytes(other, len)
        }),
{
    let aligned = page_align_up(size);
    lemma_page_align_up(size);
    lemma_lowest_fit(view, aligned, PAGE_SIZE as int);
    let (after, addr) = mmap_model(view, size);
    let region = mapped_region(addr, size);
    let handed = view.with_region(region);
    lemma_bytes_written(handed, addr as int, zeros(aligned));
    if view.live.contains(region) {
        assert(!apart(addr as int, aligned, region.base as int, region.size as int));
    }
    assert forall|other: int, len: int|
        view.in_pool(other, len) && apart(
            other,
            len,
            addr as int,
            region.size as int,
        ) implies #[trigger] after.bytes(other, len) == view.bytes(other, len) by {
        lemma_bytes_kept(handed, addr as int, zeros(aligned), other, len);
    }
}

/// Moves the mapping at `old_addr`, which was made with `old_size`, into a
/// new mapping of `new_size` bytes.
pub fn os_mremap(
    arena: &mut Arena,
    old_addr: usize,
    old_size: usize,
    new_size: usize,
) -> (new_addr: usize)
    requires
        old(arena).wf(),
        old_addr == 0 || old_size == 0 || is_mapping(old(arena)@, old_addr, old_size),
    ensures
        final(arena).wf(),
        final(arena)@ == mremap_model(old(arena)@, old_addr, old_size, new_size).0,
        new_addr == mremap_model(old(arena)@, old_addr, old_size, new_size).1,
{
    if old_addr == 0 {
        return 0;
    }
    let ghost view = arena@;
    let new_addr = os_mmap(arena, 0, new_size, 0, 0, -1);
    if new_addr == 0 {
        return 0;
    }
    let copy_size = if old_size < new_size {
        old_size
    } else {
        new_size
    };
    proof {
        lemma_mmap_region(view, new_size);
        lemma_page_align_up(old_size);
        lemma_page_align_up(new_size);
    }
    if copy_size > 0 {
        proof {
            assert(view.holds(mapped_region(old_addr, old_size)));
            assert(arena@.bytes(old_addr as int, copy_size as int) == view.bytes(
                old_addr as int,
                copy_size as int,
            ));
        }
        arena.copy(old_addr, new_addr, copy_size);
    }
    os_munmap(arena, old_addr, old_size);
    new_addr
}

/// Mapping `size` bytes gives the null address and leaves the arena as it
/// was, or gives a region of at least `size` bytes that starts at a page
/// address and holds only zeros.
pub proof fn law_mapping_is_zeroed(view: ArenaView, size: usize)
    requires
        view.wf(),
    ensures
        ({
            let (after, addr) = mmap_model(view, size);
            &&& addr == 0 ==> after == view
            &&& addr != 0 ==> {
                &&& size > 0
                &&& after.wf()
                &&& addr as int % PAGE_SIZE as int == 0
                &&& is_mapping(after, addr, size)
                &&& page_align_up(size) >= size
                &&& after.in_pool(addr as int, page_align_up(size))
                &&& after.bytes(addr as int, page_align_up(size)) == zeros(page_align_up(size))
                &&& after.bytes(addr as int, size as int) == zeros(size as int)
            }
        }),
{
    let (after, addr) = mmap_model(view, size);
    if addr != 0 {
        lemma_mmap_region(view, size);
        lemma_page_align_up(size);
        assert(after.bytes(addr as int, size as int) =~= after.bytes(
            addr as int,
            page_align_up(size),
        ).take(size as int));
        assert(zeros(page_align_up(size)).take(size as int) =~= zeros(size as int));
    }
}

/// Remapping gives the null address and leaves the arena as it was, or
/// gives a new mapping that starts with the bytes of the old one, as many
/// as both sizes cover. The new mapping has no byte in common with the old
/// one, which is then handed out no more.
pub proof fn law_remap_keeps_content(
    view: ArenaView,
    old_addr: usize,
    old_size: usize,
    new_size: usize,
)
    requires
        view.wf(),
        is_mapping(view, old_addr, old_size),
    ensures
        ({
            let (after, fresh) = mremap_model(view, old_addr, old_size, new_size);
            let kept = smaller(old_size as int, new_size as int);
            &&& fresh == 0 ==> after == view
            &&& fresh != 0 ==> {
                &&& after.wf()
                &&& is_mapping(after, fresh, new_size)
                &&& after.bytes(fresh as int, kept) == view.bytes(old_addr as int, kept)
                &&& apart(
                    fresh as int,
                    page_align_up(new_size),
                    old_addr as int,
                    page_align_up(old_size),
                )
                &&& !after.live.contains(mapped_region(old_addr, old_size))
            }
        }),
{
    let old_region = mapped_region(old_addr, old_size);
    assert(view.holds(old_region));
    let (mapped, fresh) = mmap_model(view, new_size);
    if fresh != 0 {
        lemma_mmap_region(view, new_size);
        lemma_page_align_up(old_size);
        lemma_page_align_up(new_size);
        let kept = smaller(old_size as int, new_size as int);
        let data = view.bytes(old_addr as int, kept);
        lemma_bytes_written(mapped, fresh as int, data);
        let moved = mapped.with_bytes(fresh as int, data);
        let after = munmap_model(moved, old_addr, old_size);
        assert(after.bytes(fresh as int, kept) == moved.bytes(fresh as int, kept));
        assert(mapped_region(fresh, new_size) != old_region);
    }
}

/// Whether `addr` is the address of a mapping that was made with `size`.
pub fn owns_mapping(arena: &Arena, addr: usize, size: usize) -> (owned: bool)
    requires
        arena.wf(),
    ensures
        owned == is_mapping(arena@, addr, size),
{
    if size == 0 || size > usize::MAX - (PAGE_SIZE - 1) {
        return false;
    }
    let aligned_size = align_up(size);
    arena.is_live(addr, aligned_size, PAGE_SIZE)
}

} // verus!
