//! The heap shim: blocks of any size out of the arena.
//!
//! A block is a region of alignment 8 whose first 8 bytes, the header, hold
//! the size of the whole region. The address handed to the caller is the one
//! behind the header; the bytes from there on are the payload. The header is
//! all that tells how much to give back, so a caller that overwrites it has
//! no block any more.

use crate::arena::{
    apart, lemma_bytes_kept, lemma_bytes_written, lemma_lowest_fit, lemma_lowest_fit_same_layout,
    Arena, ArenaView, Region,
};
use vstd::bytes::{
    lemma_auto_spec_u64_to_from_le_bytes, spec_u64_from_le_bytes, spec_u64_to_le_bytes,
    u64_from_le_bytes, u64_to_le_bytes,
};
use vstd::prelude::*;

verus! {

/// Bytes of the header that stands before each payload.
pub const HEADER_SIZE: usize = 8;

/// The alignment of every block.
pub const MIN_ALIGN: usize = 8;

/// The header of a block of `total` bytes.
pub open spec fn header_bytes(total: usize) -> Seq<u8> {
    spec_u64_to_le_bytes(total as u64)
}

/// The size that the header before `ptr` holds.
pub open spec fn header_total(view: ArenaView, ptr: usize) -> u64 {
    spec_u64_from_le_bytes(view.bytes(ptr - HEADER_SIZE, HEADER_SIZE as int))
}

/// The region of the block whose payload starts at `ptr`, as its header
/// tells it.
pub open spec fn block_region(view: ArenaView, ptr: usize) -> Region {
    Region {
        base: (ptr - HEADER_SIZE) as usize,
        size: header_total(view, ptr) as usize,
        align: MIN_ALIGN,
    }
}

/// Whether `ptr` is the payload address of a block: a header lies before
/// it in the pool, it tells of more bytes than the header's own, and the
/// region it tells of is handed out.
pub open spec fn is_heap_block(view: ArenaView, ptr: usize) -> bool {
    &&& ptr >= HEADER_SIZE
    &&& view.in_pool(ptr - HEADER_SIZE, HEADER_SIZE as int)
    &&& HEADER_SIZE < header_total(view, ptr) <= usize::MAX
    &&& view.live.contains(block_region(view, ptr))
}

/// The number of payload bytes of the block at `ptr`.
pub open spec fn payload_size(view: ArenaView, ptr: usize) -> int {
    header_total(view, ptr) - HEADER_SIZE
}

/// The arena and the address that a request for `size` bytes gives.
///
/// A request for nothing gives the null address, as does one that the
/// arena cannot serve; the arena is then as before. Otherwise the block
/// lies at the lowest address that fits, its header is written, and the
/// address is the one behind the header.
pub open spec fn malloc_model(view: ArenaView, size: usize) -> (ArenaView, usize) {
    if size == 0 || size + HEADER_SIZE > usize::MAX {
        (view, 0)
    } else {
        let total = (size + HEADER_SIZE) as usize;
        match view.lowest_fit(total as int, MIN_ALIGN as int) {
            None => (view, 0),
            Some(base) => (
                view.with_region(Region { base, size: total, align: MIN_ALIGN }).with_bytes(
                    base as int,
                    header_bytes(total),
                ),
                (base + HEADER_SIZE) as usize,
            ),
        }
    }
}

/// The arena after the block at `ptr` is given back; the same arena for
/// the null address.
pub open spec fn free_model(view: ArenaView, ptr: usize) -> ArenaView {
    if ptr == 0 {
        view
    } else {
        view.without_region(block_region(view, ptr))
    }
}

/// The smaller of two sizes.
pub open spec fn smaller(a: int, b: int) -> int {
    if a <= b {
        a
    } else {
        b
    }
}

/// The arena and the address that resizing the block at `ptr` to
/// `new_size` bytes gives.
///
/// The null address is a plain request, the size zero gives the block back.
/// A block that has the size asked for stays where it is. Otherwise a new
/// block is taken, as many bytes as both hold are copied, and the old block
/// is given back; where no new block can be had, nothing changes and the
/// address is null.
pub open spec fn realloc_model(view: ArenaView, ptr: usize, new_size: usize) -> (
    ArenaView,
    usize,
) {
    if ptr == 0 {
        malloc_model(view, new_size)
    } else if new_size == 0 {
        (free_model(view, ptr), 0)
    } else if new_size == payload_size(view, ptr) {
        (view, ptr)
    } else {
        let (grown, fresh) = malloc_model(view, new_size);
        if fresh == 0 {
            (view, 0)
        } else {
            let kept = smaller(payload_size(view, ptr), new_size as int);
            (free_model(grown.with_bytes(fresh as int, view.bytes(ptr as int, kept)), ptr), fresh)
        }
    }
}

/// The number of bytes between the start of a block and its payload.
pub fn size_header_offset() -> (offset: usize)
    ensures
        offset == HEADER_SIZE,
{
    8
}

/// Whether `ptr` is the payload address of a block of the arena.
pub fn owns_block(arena: &Arena, ptr: usize) -> (owned: bool)
    requires
        arena.wf(),
    ensures
        owned == is_heap_block(arena@, ptr),
{
    if ptr < HEADER_SIZE {
        return false;
    }
    let base = ptr - HEADER_SIZE;
    if !arena.contains(base, HEADER_SIZE) {
        return false;
    }
    let header = arena.read(base, HEADER_SIZE);
    let total = u64_from_le_bytes(header.as_slice());
    if total <= HEADER_SIZE as u64 || total > usize::MAX as u64 {
        return false;
    }
    arena.is_live(base, total as usize, MIN_ALIGN)
}

/// Takes a block of `size` payload bytes from the arena.
pub fn os_malloc(arena: &mut Arena, size: usize) -> (ptr: usize)
    requires
        old(arena).wf(),
    ensures
        final(arena).wf(),
        final(arena)@ == malloc_model(old(arena)@, size).0,
        ptr == malloc_model(old(arena)@, size).1,
{
    if size == 0 {
        return 0;
    }
    let total = match size.checked_add(size_header_offset()) {
        Some(total) => total,
        None => {
            return 0;
        },
    };
    let base = arena.allocate(total, MIN_ALIGN);
    if base == 0 {
        proof {
            lemma_lowest_fit(old(arena)@, total as int, MIN_ALIGN as int);
        }
        return 0;
    }
    let header = u64_to_le_bytes(total as u64);
    arena.write(base, header.as_slice());
    base + size_header_offset()
}

/// Gives the block at `ptr` back to the arena; nothing for the null address.
pub fn os_free(arena: &mut Arena, ptr: usize)
    requires
        old(arena).wf(),
        ptr == 0 || is_heap_block(old(arena)@, ptr),
    ensures
        final(arena).wf(),
        final(arena)@ == free_model(old(arena)@, ptr),
{
    if ptr == 0 {
        return ;
    }
    let base = ptr - size_header_offset();
    let header = arena.read(base, HEADER_SIZE);
    let total = u64_from_le_bytes(header.as_slice());
    arena.deallocate(base, total as usize, MIN_ALIGN);
}

/// What holds of the arena after a request was served: the new block is a
/// block of the size asked for, it lies apart from every region that was
/// handed out before, and what was stored outside of its header is as before.
pub proof fn lemma_malloc_block(view: ArenaView, size: usize)
    requires
        view.wf(),
        malloc_model(view, size).1 != 0,
    ensures
        ({
            let (after, ptr) = malloc_model(view, size);
            let region = Region {
                base: (ptr - HEADER_SIZE) as usize,
                size: (size + HEADER_SIZE) as usize,
                align: MIN_ALIGN,
            };
            &&& after.wf()
            &&& size > 0
            &&& ptr > HEADER_SIZE
            &&& is_heap_block(after, ptr)
            &&& payload_size(after, ptr) == size
            &&& block_region(after, ptr) == region
            &&& after.in_pool(ptr as int, size as int)
            &&& after.live == view.live.insert(region)
            &&& !view.live.contains(region)
            &&& view.fits(region.base as int, region.size as int, MIN_ALIGN as int)
            &&& after.origin == view.origin
            &&& after.contents.len() == view.contents.len()
            &&& forall|addr: int, len: int|
                view.in_pool(addr, len) && apart(addr, len, region.base as int, HEADER_SIZE as int)
                    ==> #[trigger] after.bytes(addr, len) == view.bytes(addr, len)
        }),
{
    let total = (size + HEADER_SIZE) as usize;
    lemma_lowest_fit(view, total as int, MIN_ALIGN as int);
    let base = view.lowest_fit(total as int, MIN_ALIGN as int)->0;
    let region = Region { base, size: total, align: MIN_ALIGN };
    let (after, ptr) = malloc_model(view, size);
    lemma_auto_spec_u64_to_from_le_bytes();
    let handed = view.with_region(region);
    lemma_bytes_written(handed, base as int, header_bytes(total));
    assert(after.bytes(base as int, HEADER_SIZE as int) == header_bytes(total));
    assert(header_total(after, ptr) == total);
    if view.live.contains(region) {
        assert(!apart(base as int, total as int, region.base as int, region.size as int));
    }
    assert forall|addr: int, len: int|
        view.in_pool(addr, len) && apart(
            addr,
            len,
            region.base as int,
            HEADER_SIZE as int,
        ) implies #[trigger] after.bytes(addr, len) == view.bytes(addr, len) by {
        lemma_bytes_kept(handed, base as int, header_bytes(total), addr, len);
    }
}

/// Resizes the block at `ptr` to `new_size` payload bytes.
pub fn os_realloc(arena: &mut Arena, ptr: usize, new_size: usize) -> (new_ptr: usize)
    requires
        old(arena).wf(),
        ptr == 0 || is_heap_block(old(arena)@, ptr),
    ensures
        final(arena).wf(),
        final(arena)@ == realloc_model(old(arena)@, ptr, new_size).0,
        new_ptr == realloc_model(old(arena)@, ptr, new_size).1,
{
    if ptr == 0 {
        return os_malloc(arena, new_size);
    }
    if new_size == 0 {
        os_free(arena, ptr);
        return 0;
    }
    let ghost view = arena@;
    let base = ptr - size_header_offset();
    let header = arena.read(base, HEADER_SIZE);
    let total = u64_from_le_bytes(header.as_slice());
    let old_size = (total as usize) - size_header_offset();
    if new_size == old_size {
        return ptr;
    }
    let new_ptr = os_malloc(arena, new_size);
    if new_ptr == 0 {
        return 0;
    }
    let copy_size = if old_size < new_size {
        old_size
    } else {
        new_size
    };
    proof {
        lemma_malloc_block(view, new_size);
        let old_region = block_region(view, ptr);
        assert(view.holds(old_region));
        assert(arena@.bytes(ptr as int, copy_size as int) == view.bytes(
            ptr as int,
            copy_size as int,
        ));
    }
    arena.copy(ptr, new_ptr, copy_size);
    proof {
        let grown = malloc_model(view, new_size).0;
        let copied = grown.with_bytes(new_ptr as int, view.bytes(ptr as int, copy_size as int));
        assert(arena@ == copied);
        assert(grown.bytes(ptr - HEADER_SIZE, HEADER_SIZE as int) == view.bytes(
            ptr - HEADER_SIZE,
            HEADER_SIZE as int,
        ));
        lemma_bytes_kept(
            grown,
            new_ptr as int,
            view.bytes(ptr as int, copy_size as int),
            ptr - HEADER_SIZE,
            HEADER_SIZE as int,
        );
        assert(header_total(copied, ptr) == header_total(view, ptr));
    }
    os_free(arena, ptr);
    new_ptr
}

/// A request for `size` bytes gives the null address and leaves the arena
/// as it was, or gives a block of `size` payload bytes at an address that
/// is a multiple of 8. Whatever `size`
/// bytes are then written to the payload are read back from it, and the
/// block is still a block, so that it can be given back. The arena is well
/// formed after that, and the next request for `size` bytes is served at
/// the same address.
pub proof fn law_block_keeps_what_is_written(view: ArenaView, size: usize, data: Seq<u8>)
    requires
        view.wf(),
        size > 0,
        data.len() == size,
    ensures
        ({
            let (after, ptr) = malloc_model(view, size);
            let written = after.with_bytes(ptr as int, data);
            &&& ptr == 0 ==> after == view
            &&& ptr != 0 ==> {
                &&& after.wf()
                &&& ptr as int % MIN_ALIGN as int == 0
                &&& is_heap_block(after, ptr)
                &&& payload_size(after, ptr) == size
                &&& after.in_pool(ptr as int, size as int)
                &&& written.bytes(ptr as int, size as int) == data
                &&& written.wf()
                &&& is_heap_block(written, ptr)
                &&& payload_size(written, ptr) == size
                &&& free_model(written, ptr).wf()
                &&& free_model(written, ptr).live == view.live
                &&& malloc_model(free_model(written, ptr), size).1 == ptr
            }
        }),
{
    let (after, ptr) = malloc_model(view, size);
    if ptr != 0 {
        lemma_malloc_block(view, size);
        let written = after.with_bytes(ptr as int, data);
        lemma_bytes_written(after, ptr as int, data);
        lemma_bytes_kept(after, ptr as int, data, ptr - HEADER_SIZE, HEADER_SIZE as int);
        assert(header_total(written, ptr) == header_total(after, ptr));
        assert(free_model(written, ptr).live =~= view.live);
        lemma_lowest_fit_same_layout(
            free_model(written, ptr),
            view,
            size + HEADER_SIZE,
            MIN_ALIGN as int,
        );
    }
}

/// Resizing a block to the payload size it has gives the same address and
/// changes nothing.
pub proof fn law_realloc_same_size(view: ArenaView, ptr: usize, new_size: usize)
    requires
        view.wf(),
        is_heap_block(view, ptr),
        new_size == payload_size(view, ptr),
    ensures
        realloc_model(view, ptr, new_size) == (view, ptr),
{
}

/// Resizing a block to another size gives the null address and changes
/// nothing, or gives a block of the new size that starts with the bytes of
/// the old payload, as many as both sizes cover; the old block is then
/// handed out no more.
pub proof fn law_realloc_keeps_content(view: ArenaView, ptr: usize, new_size: usize)
    requires
        view.wf(),
        is_heap_block(view, ptr),
        new_size > 0,
        new_size != payload_size(view, ptr),
    ensures
        ({
            let (after, fresh) = realloc_model(view, ptr, new_size);
            let kept = smaller(payload_size(view, ptr), new_size as int);
            &&& fresh == 0 ==> after == view
            &&& fresh != 0 ==> {
                &&& after.wf()
                &&& fresh != ptr
                &&& is_heap_block(after, fresh)
                &&& payload_size(after, fresh) == new_size
                &&& after.bytes(fresh as int, kept) == view.bytes(ptr as int, kept)
                &&& !after.live.contains(block_region(view, ptr))
            }
        }),
{
    let (grown, fresh) = malloc_model(view, new_size);
    if fresh != 0 {
        lemma_malloc_block(view, new_size);
        let kept = smaller(payload_size(view, ptr), new_size as int);
        let old_region = block_region(view, ptr);
        assert(view.holds(old_region));
        let data = view.bytes(ptr as int, kept);
        let copied = grown.with_bytes(fresh as int, data);
        lemma_bytes_written(grown, fresh as int, data);
        lemma_bytes_kept(grown, fresh as int, data, ptr - HEADER_SIZE, HEADER_SIZE as int);
        lemma_bytes_kept(grown, fresh as int, data, fresh - HEADER_SIZE, HEADER_SIZE as int);
        assert(header_total(copied, ptr) == header_total(view, ptr));
        assert(header_total(copied, fresh) == header_total(grown, fresh));
        let after = free_model(copied, ptr);
        assert(after.bytes(fresh as int, kept) == copied.bytes(fresh as int, kept));
        assert(header_total(after, fresh) == header_total(copied, fresh));
    }
}

} // verus!
