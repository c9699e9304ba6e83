//! The arena: the one pool of memory from which every block and every
//! mapped region is taken.
//!
//! The pool is a run of bytes that starts at the address `origin`. A region
//! is a part of it that has been handed out: its first address, its size and
//! the alignment it was asked with. Regions never overlap. A request is
//! served at the lowest address that is aligned and where the bytes lie in
//! the pool and in no region; it fails only where there is no such address.

use vstd::arithmetic::div_mod::{lemma_fundamental_div_mod, lemma_mod_multiples_basic};
use vstd::prelude::*;

verus! {

/// A part of the pool that has been handed out.
#[derive(Clone, Copy, PartialEq, Eq, Structural, Debug)]
pub struct Region {
    /// The address of the first byte.
    pub base: usize,
    /// The number of bytes.
    pub size: usize,
    /// The alignment the region was asked with.
    pub align: usize,
}

/// Whether two runs of bytes have no byte in common.
pub open spec fn apart(a_base: int, a_size: int, b_base: int, b_size: int) -> bool {
    a_base + a_size <= b_base || b_base + b_size <= a_base
}

/// Whether the address `addr` is a multiple of `align`.
pub open spec fn is_aligned(addr: int, align: int) -> bool {
    addr % align == 0
}

/// The arena as a value: where the pool starts, what it holds, and the
/// regions that are handed out.
#[verifier::ext_equal]
pub struct ArenaView {
    /// The address of the pool's first byte.
    pub origin: usize,
    /// The pool's bytes.
    pub contents: Seq<u8>,
    /// The regions handed out and not yet given back.
    pub live: Set<Region>,
}

impl ArenaView {
    /// The address behind the pool's last byte.
    pub open spec fn end(self) -> int {
        self.origin + self.contents.len()
    }

    /// Whether the `len` bytes from `addr` on lie in the pool.
    pub open spec fn in_pool(self, addr: int, len: int) -> bool {
        self.origin <= addr && 0 <= len && addr + len <= self.end()
    }

    /// Whether `region` is well formed: not empty, aligned, inside the pool.
    pub open spec fn holds(self, region: Region) -> bool {
        &&& region.size > 0
        &&& region.align > 0
        &&& is_aligned(region.base as int, region.align as int)
        &&& self.in_pool(region.base as int, region.size as int)
    }

    /// The arena's invariant: the pool does not start at the null address
    /// and ends inside the address space, and the regions are well formed
    /// and pairwise apart.
    pub open spec fn wf(self) -> bool {
        &&& self.origin > 0
        &&& self.end() <= usize::MAX
        &&& self.live.finite()
        &&& forall|r: Region| #[trigger] self.live.contains(r) ==> self.holds(r)
        &&& forall|r: Region, s: Region|
            #[trigger] self.live.contains(r) && #[trigger] self.live.contains(s) && r != s
                ==> apart(r.base as int, r.size as int, s.base as int, s.size as int)
    }

    /// Whether a region of `size` bytes and alignment `align` can be handed
    /// out at `addr`.
    pub open spec fn fits(self, addr: int, size: int, align: int) -> bool {
        &&& self.in_pool(addr, size)
        &&& is_aligned(addr, align)
        &&& forall|r: Region| #[trigger]
            self.live.contains(r) ==> apart(addr, size, r.base as int, r.size as int)
    }

    /// Whether `addr` is the lowest address at which such a region can be
    /// handed out.
    pub open spec fn is_lowest_fit(self, addr: usize, size: int, align: int) -> bool {
        &&& self.fits(addr as int, size, align)
        &&& forall|lower: int| 0 <= lower < addr ==> !#[trigger] self.fits(lower, size, align)
    }

    /// The address at which a request is served, `None` where it fails.
    pub open spec fn lowest_fit(self, size: int, align: int) -> Option<usize> {
        if exists|addr: usize| self.is_lowest_fit(addr, size, align) {
            Some(choose|addr: usize| self.is_lowest_fit(addr, size, align))
        } else {
            None
        }
    }

    /// The arena with `region` handed out.
    pub open spec fn with_region(self, region: Region) -> ArenaView {
        ArenaView { live: self.live.insert(region), ..self }
    }

    /// The arena with `region` given back.
    pub open spec fn without_region(self, region: Region) -> ArenaView {
        ArenaView { live: self.live.remove(region), ..self }
    }

    /// The `len` bytes from `addr` on.
    pub open spec fn bytes(self, addr: int, len: int) -> Seq<u8>
        recommends
            self.in_pool(addr, len),
    {
        self.contents.subrange(addr - self.origin, addr - self.origin + len)
    }

    /// The arena with `data` written from `addr` on.
    pub open spec fn with_bytes(self, addr: int, data: Seq<u8>) -> ArenaView
        recommends
            self.in_pool(addr, data.len() as int),
    {
        ArenaView {
            contents: Seq::new(
                self.contents.len(),
                |i: int|
                    if addr - self.origin <= i < addr - self.origin + data.len() {
                        data[i - (addr - self.origin)]
                    } else {
                        self.contents[i]
                    },
            ),
            ..self
        }
    }
}

/// Bytes that were written are read back.
pub proof fn lemma_bytes_written(view: ArenaView, addr: int, data: Seq<u8>)
    requires
        view.in_pool(addr, data.len() as int),
    ensures
        view.with_bytes(addr, data).bytes(addr, data.len() as int) == data,
{
    assert(view.with_bytes(addr, data).bytes(addr, data.len() as int) =~= data);
}

/// Writing leaves the bytes outside of what is written as they were.
pub proof fn lemma_bytes_kept(view: ArenaView, addr: int, data: Seq<u8>, other: int, len: int)
    requires
        view.in_pool(addr, data.len() as int),
        view.in_pool(other, len),
        apart(addr, data.len() as int, other, len),
    ensures
        view.with_bytes(addr, data).bytes(other, len) == view.bytes(other, len),
{
    assert(view.with_bytes(addr, data).bytes(other, len) =~= view.bytes(other, len));
}

/// A request is served at one address at most: the lowest that fits.
pub proof fn lemma_lowest_fit(view: ArenaView, size: int, align: int)
    ensures
        match view.lowest_fit(size, align) {
            Some(addr) => view.is_lowest_fit(addr, size, align),
            None => forall|addr: usize| !view.fits(addr as int, size, align),
        },
        forall|addr: usize| #[trigger]
            view.is_lowest_fit(addr, size, align) ==> view.lowest_fit(size, align) == Some(addr),
{
    assert forall|addr: usize| #[trigger]
        view.is_lowest_fit(addr, size, align) implies view.lowest_fit(size, align) == Some(
        addr,
    ) by {
        let chosen = choose|a: usize| view.is_lowest_fit(a, size, align);
        if chosen < addr {
            assert(!view.fits(chosen as int, size, align));
        }
        if addr < chosen {
            assert(!view.fits(addr as int, size, align));
        }
    }
    if view.lowest_fit(size, align) is None {
        assert forall|addr: usize| !view.fits(addr as int, size, align) by {
            if view.fits(addr as int, size, align) {
                lemma_fit_has_lowest(view, size, align, addr);
            }
        }
    }
}

/// Where a request is served depends on the pool's bounds and on the
/// regions handed out, not on what the pool holds.
pub proof fn lemma_lowest_fit_same_layout(one: ArenaView, other: ArenaView, size: int, align: int)
    requires
        one.origin == other.origin,
        one.contents.len() == other.contents.len(),
        one.live == other.live,
    ensures
        one.lowest_fit(size, align) == other.lowest_fit(size, align),
{
    lemma_lowest_fit(one, size, align);
    lemma_lowest_fit(other, size, align);
    assert forall|addr: int| one.fits(addr, size, align) == other.fits(addr, size, align) by {}
    match other.lowest_fit(size, align) {
        Some(addr) => {
            assert(one.is_lowest_fit(addr, size, align));
        },
        None => {
            if one.lowest_fit(size, align) is Some {
                let addr = one.lowest_fit(size, align)->0;
                assert(other.fits(addr as int, size, align));
            }
        },
    }
}

/// Where some address fits, a lowest one does.
proof fn lemma_fit_has_lowest(view: ArenaView, size: int, align: int, addr: usize)
    requires
        view.fits(addr as int, size, align),
    ensures
        exists|lowest: usize| view.is_lowest_fit(lowest, size, align),
    decreases addr,
{
    if exists|lower: int| 0 <= lower < addr && view.fits(lower, size, align) {
        let lower = choose|lower: int| 0 <= lower < addr && view.fits(lower, size, align);
        lemma_fit_has_lowest(view, size, align, lower as usize);
    } else {
        assert(view.is_lowest_fit(addr, size, align));
    }
}

/// Inserting into a sequence adds one element to its set.
proof fn lemma_insert_to_set(s: Seq<Region>, at: int, region: Region)
    requires
        0 <= at <= s.len(),
    ensures
        s.insert(at, region).to_set() =~= s.to_set().insert(region),
{
    let t = s.insert(at, region);
    assert forall|r: Region| t.to_set().contains(r) <==> s.to_set().insert(region).contains(
        r,
    ) by {
        if t.contains(r) {
            let i = choose|i: int| 0 <= i < t.len() && t[i] == r;
            if i < at {
                assert(s[i] == r);
            } else if i > at {
                assert(s[i - 1] == r);
            }
        }
        if s.contains(r) {
            let i = choose|i: int| 0 <= i < s.len() && s[i] == r;
            if i < at {
                assert(t[i] == r);
            } else {
                assert(t[i + 1] == r);
            }
        }
        if r == region {
            assert(t[at] == r);
        }
    }
}

/// Removing from a sequence without repetitions takes one element from its set.
proof fn lemma_remove_to_set(s: Seq<Region>, at: int)
    requires
        0 <= at < s.len(),
        forall|i: int, j: int| 0 <= i < j < s.len() ==> s[i] != s[j],
    ensures
        s.remove(at).to_set() =~= s.to_set().remove(s[at]),
{
    let t = s.remove(at);
    assert forall|r: Region| t.to_set().contains(r) <==> s.to_set().remove(s[at]).contains(
        r,
    ) by {
        if t.contains(r) {
            let i = choose|i: int| 0 <= i < t.len() && t[i] == r;
            if i < at {
                assert(s[i] == r);
            } else {
                assert(s[i + 1] == r);
            }
        }
        if s.contains(r) && r != s[at] {
            let i = choose|i: int| 0 <= i < s.len() && s[i] == r;
            if i < at {
                assert(t[i] == r);
            } else {
                assert(t[i - 1] == r);
            }
        }
    }
}

/// A multiple of `align` at or above `value` is not below the next multiple.
proof fn lemma_next_multiple(value: int, align: int, multiple: int)
    requires
        align > 0,
        value >= 0,
        multiple >= value,
        multiple % align == 0,
        value % align != 0,
    ensures
        multiple >= value + (align - value % align),
{
    let m = value / align;
    let k = multiple / align;
    let rem = value % align;
    lemma_fundamental_div_mod(value, align);
    lemma_fundamental_div_mod(multiple, align);
    assert(k > m) by (nonlinear_arith)
        requires
            align * k >= align * m + rem,
            rem > 0,
            align > 0,
    ;
    assert(align * k >= align * m + align) by (nonlinear_arith)
        requires
            k > m,
            align > 0,
    ;
}

/// The lowest multiple of `align` at or above `value`, `None` where it is
/// beyond the address space.
fn round_up(value: usize, align: usize) -> (rounded: Option<usize>)
    requires
        align > 0,
    ensures
        match rounded {
            Some(r) => {
                &&& value <= r
                &&& is_aligned(r as int, align as int)
                &&& forall|a: int| value <= a < r ==> !#[trigger] is_aligned(a, align as int)
            },
            None => forall|a: int|
                value <= a <= usize::MAX ==> !#[trigger] is_aligned(a, align as int),
        },
{
    let rem = value % align;
    if rem == 0 {
        Some(value)
    } else {
        proof {
            assert forall|a: int| value <= a && #[trigger] is_aligned(a, align as int) implies a
                >= value + (align - rem) by {
                lemma_next_multiple(value as int, align as int, a);
            }
            lemma_next_multiple_exists(value as int, align as int);
        }
        value.checked_add(align - rem)
    }
}

/// The next multiple of `align` above a value that is none is a multiple.
proof fn lemma_next_multiple_exists(value: int, align: int)
    requires
        align > 0,
        value >= 0,
        value % align != 0,
    ensures
        (value + (align - value % align)) % align == 0,
{
    let m = value / align;
    lemma_fundamental_div_mod(value, align);
    assert(align * (m + 1) == align * m + align) by (nonlinear_arith);
    lemma_mod_multiples_basic(m + 1, align);
    assert((m + 1) * align == align * (m + 1)) by (nonlinear_arith);
}

/// The arena itself: the pool's bytes and the table of the regions handed
/// out, kept in the order of their addresses.
pub struct Arena {
    origin: usize,
    memory: Vec<u8>,
    regions: Vec<Region>,
}

impl View for Arena {
    type V = ArenaView;

    closed spec fn view(&self) -> ArenaView {
        ArenaView { origin: self.origin, contents: self.memory@, live: self.regions@.to_set() }
    }
}

impl Arena {
    /// The table lists the regions by rising address, each ending before
    /// the next begins.
    pub closed spec fn ordered(&self) -> bool {
        forall|i: int, j: int|
            0 <= i < j < self.regions@.len() ==> (#[trigger] self.regions@[i]).base
                + self.regions@[i].size <= (#[trigger] self.regions@[j]).base
    }

    /// The arena's invariant.
    pub open spec fn wf(&self) -> bool {
        self@.wf() && self.ordered()
    }

    /// An arena whose pool has `capacity` zero bytes from `origin` on and
    /// from which nothing is handed out.
    pub fn new(origin: usize, capacity: usize) -> (arena: Arena)
        requires
            origin > 0,
            origin + capacity <= usize::MAX,
        ensures
            arena.wf(),
            arena@.origin == origin,
            arena@.contents == Seq::new(capacity as nat, |i: int| 0u8),
            arena@.live == Set::<Region>::empty(),
    {
        let memory: Vec<u8> = vec![0u8; capacity];
        let regions: Vec<Region> = Vec::new();
        let arena = Arena { origin, memory, regions };
        assert(arena.regions@.to_set() =~= Set::<Region>::empty());
        assert(arena@.contents =~= Seq::new(capacity as nat, |i: int| 0u8));
        arena
    }

    /// The address of the pool's first byte.
    pub fn origin(&self) -> (origin: usize)
        ensures
            origin == self@.origin,
    {
        self.origin
    }

    /// The number of bytes of the pool.
    pub fn capacity(&self) -> (capacity: usize)
        ensures
            capacity == self@.contents.len(),
    {
        self.memory.len()
    }

    /// Hands out a region of `size` bytes at the lowest address that is a
    /// multiple of `align` and free; gives its address, or the null address
    /// and no region where no address is.
    pub fn allocate(&mut self, size: usize, align: usize) -> (addr: usize)
        requires
            old(self).wf(),
            size > 0,
            align > 0,
        ensures
            final(self).wf(),
            match old(self)@.lowest_fit(size as int, align as int) {
                Some(lowest) => addr == lowest && final(self)@ == old(self)@.with_region(
                    Region { base: lowest, size, align },
                ),
                None => addr == 0 && final(self)@ == old(self)@,
            },
            addr != 0 ==> old(self)@.fits(addr as int, size as int, align as int),
    {
        let ghost view = self@;
        let count = self.regions.len();
        let pool_end = self.origin + self.memory.len();
        let mut cursor = self.origin;
        let mut index: usize = 0;
        proof {
            lemma_lowest_fit(view, size as int, align as int);
        }
        loop
            invariant
                self == old(self),
                self@ == view,
                self.wf(),
                count == self.regions@.len(),
                pool_end == view.end(),
                size > 0,
                align > 0,
                index <= count,
                view.origin <= cursor <= pool_end,
                index == 0 ==> cursor == self.origin,
                index > 0 ==> cursor == self.regions@[index - 1].base + self.regions@[index
                    - 1].size,
                forall|a: int|
                    0 <= a < cursor ==> !#[trigger] view.fits(a, size as int, align as int),
                match view.lowest_fit(size as int, align as int) {
                    Some(lowest) => view.is_lowest_fit(lowest, size as int, align as int),
                    None => forall|addr: usize| !view.fits(addr as int, size as int, align as int),
                },
                forall|addr: usize| #[trigger]
                    view.is_lowest_fit(addr, size as int, align as int) ==> view.lowest_fit(
                        size as int,
                        align as int,
                    ) == Some(addr),
            decreases count - index,
        {
            let gap_end = if index < count {
                self.regions[index].base
            } else {
                pool_end
            };
            proof {
                if index < count {
                    assert(view.live.contains(self.regions@[index as int]));
                }
            }
            let rounded = round_up(cursor, align);
            match rounded {
                Some(candidate) => {
                    if candidate <= gap_end && size <= gap_end - candidate {
                        let region = Region { base: candidate, size, align };
                        proof {
                            assert forall|r: Region| #[trigger] view.live.contains(r) implies apart(
                                candidate as int,
                                size as int,
                                r.base as int,
                                r.size as int,
                            ) by {
                                let i = choose|i: int|
                                    0 <= i < self.regions@.len() && self.regions@[i] == r;
                                if i < index {
                                    if i < index - 1 {
                                        assert(self.regions@[i].base + self.regions@[i].size
                                            <= self.regions@[index - 1].base);
                                    }
                                } else if i > index {
                                    assert(self.regions@[index as int].base
                                        + self.regions@[index as int].size
                                        <= self.regions@[i].base);
                                }
                            }
                            assert(view.fits(candidate as int, size as int, align as int));
                            assert(view.is_lowest_fit(candidate, size as int, align as int));
                            lemma_insert_to_set(self.regions@, index as int, region);
                        }
                        self.regions.insert(index, region);
                        proof {
                            assert(self@ == view.with_region(region));
                            assert forall|i: int, j: int|
                                0 <= i < j < self.regions@.len() implies (
                            #[trigger] self.regions@[i]).base + self.regions@[i].size <= (
                            #[trigger] self.regions@[j]).base by {
                                let before = old(self).regions@;
                                if j < index {
                                    assert(before[i].base + before[i].size <= before[j].base);
                                } else if j == index {
                                    if i < index - 1 {
                                        assert(before[i].base + before[i].size <= before[index
                                            - 1].base);
                                    }
                                } else if i == index {
                                    if j - 1 > index {
                                        assert(before[index as int].base
                                            + before[index as int].size <= before[j - 1].base);
                                    }
                                } else if i < index {
                                    assert(before[i].base + before[i].size <= before[j - 1].base);
                                } else {
                                    assert(before[i - 1].base + before[i - 1].size <= before[j
                                        - 1].base);
                                }
                            }
                            assert forall|r: Region, s: Region|
                                #[trigger] self@.live.contains(r) && #[trigger] self@.live.contains(
                                    s,
                                ) && r != s implies apart(
                                r.base as int,
                                r.size as int,
                                s.base as int,
                                s.size as int,
                            ) by {
                                if r == region {
                                    assert(view.live.contains(s));
                                } else if s == region {
                                    assert(view.live.contains(r));
                                }
                            }
                        }
                        return candidate;
                    }
                },
                None => {
                    proof {
                        assert forall|addr: usize|
                            !view.fits(addr as int, size as int, align as int) by {
                            if addr >= cursor {
                                assert(!is_aligned(addr as int, align as int));
                            }
                        }
                    }
                    return 0;
                },
            }
            let candidate = rounded.unwrap();
            if index == count {
                proof {
                    assert forall|addr: usize|
                        !view.fits(addr as int, size as int, align as int) by {
                        if addr >= cursor {
                            if addr < candidate {
                                assert(!is_aligned(addr as int, align as int));
                            }
                        }
                    }
                }
                return 0;
            }
            let next = self.regions[index].base + self.regions[index].size;
            proof {
                let blocker = self.regions@[index as int];
                assert(view.holds(blocker));
                assert forall|a: int| 0 <= a < next implies !#[trigger] view.fits(
                    a,
                    size as int,
                    align as int,
                ) by {
                    if a >= cursor {
                        if a < candidate {
                            assert(!is_aligned(a, align as int));
                        } else {
                            assert(!apart(
                                a,
                                size as int,
                                blocker.base as int,
                                blocker.size as int,
                            ));
                        }
                    }
                }
            }
            cursor = next;
            index = index + 1;
        }
    }

    /// Whether a region of this address, size and alignment is handed out.
    pub fn is_live(&self, addr: usize, size: usize, align: usize) -> (live: bool)
        ensures
            live == self@.live.contains(Region { base: addr, size, align }),
    {
        let ghost wanted = Region { base: addr, size, align };
        let mut index: usize = 0;
        while index < self.regions.len()
            invariant
                index <= self.regions@.len(),
                wanted == (Region { base: addr, size, align }),
                forall|i: int| 0 <= i < index ==> self.regions@[i] != wanted,
            decreases self.regions@.len() - index,
        {
            let region = self.regions[index];
            if region.base == addr && region.size == size && region.align == align {
                assert(self.regions@[index as int] == wanted);
                return true;
            }
            index = index + 1;
        }
        false
    }

    /// Takes back the region of this address, size and alignment. The
    /// pool's bytes stay as they are.
    pub fn deallocate(&mut self, addr: usize, size: usize, align: usize)
        requires
            old(self).wf(),
            old(self)@.live.contains(Region { base: addr, size, align }),
        ensures
            final(self).wf(),
            final(self)@ == old(self)@.without_region(Region { base: addr, size, align }),
    {
        let ghost wanted = Region { base: addr, size, align };
        let mut index: usize = 0;
        while index < self.regions.len()
            invariant
                self == old(self),
                self.wf(),
                index <= self.regions@.len(),
                wanted == (Region { base: addr, size, align }),
                self@.live.contains(wanted),
                forall|i: int| 0 <= i < index ==> self.regions@[i] != wanted,
            decreases self.regions@.len() - index,
        {
            let region = self.regions[index];
            if region.base == addr && region.size == size && region.align == align {
                proof {
                    let before = self.regions@;
                    assert(before[index as int] == wanted);
                    assert forall|i: int, j: int| 0 <= i < j < before.len() implies before[i]
                        != before[j] by {
                        assert(self@.live.contains(before[i]));
                        assert(self@.holds(before[i]));
                        assert(before[i].base + before[i].size <= before[j].base);
                    }
                    lemma_remove_to_set(before, index as int);
                }
                let _ = self.regions.remove(index);
                proof {
                    let before = old(self).regions@;
                    assert(self@ == old(self)@.without_region(wanted));
                    assert forall|i: int, j: int|
                        0 <= i < j < self.regions@.len() implies (#[trigger] self.regions@[i]).base
                        + self.regions@[i].size <= (#[trigger] self.regions@[j]).base by {
                        let from = if i < index {
                            i
                        } else {
                            i + 1
                        };
                        let to = if j < index {
                            j
                        } else {
                            j + 1
                        };
                        assert(before[from].base + before[from].size <= before[to].base);
                    }
                }
                return ;
            }
            index = index + 1;
        }
        proof {
            // The region is handed out, so the loop has met it.
            let i = choose|i: int| 0 <= i < self.regions@.len() && self.regions@[i] == wanted;
            assert(self.regions@[i] != wanted);
        }
    }

    /// Whether the `len` bytes from `addr` on lie in the pool.
    pub fn contains(&self, addr: usize, len: usize) -> (inside: bool)
        requires
            self.wf(),
        ensures
            inside == self@.in_pool(addr as int, len as int),
    {
        addr >= self.origin && addr - self.origin <= self.memory.len() && len <= self.memory.len()
            - (addr - self.origin)
    }

    /// The byte at `addr`.
    pub fn load(&self, addr: usize) -> (value: u8)
        requires
            self.wf(),
            self@.in_pool(addr as int, 1),
        ensures
            value == self@.contents[addr - self@.origin],
    {
        self.memory[addr - self.origin]
    }

    /// Writes `value` at `addr`.
    pub fn store(&mut self, addr: usize, value: u8)
        requires
            old(self).wf(),
            old(self)@.in_pool(addr as int, 1),
        ensures
            final(self).wf(),
            final(self)@ == old(self)@.with_bytes(addr as int, seq![value]),
    {
        self.memory.set(addr - self.origin, value);
        assert(self@.contents =~= old(self)@.with_bytes(addr as int, seq![value]).contents);
    }

    /// The `len` bytes from `addr` on.
    pub fn read(&self, addr: usize, len: usize) -> (data: Vec<u8>)
        requires
            self.wf(),
            self@.in_pool(addr as int, len as int),
        ensures
            data@ == self@.bytes(addr as int, len as int),
    {
        let start = addr - self.origin;
        let mut data: Vec<u8> = Vec::new();
        let mut index: usize = 0;
        while index < len
            invariant
                self.wf(),
                start == addr - self.origin,
                start + len <= self.memory@.len(),
                index <= len,
                data@ == self.memory@.subrange(start as int, start + index),
            decreases len - index,
        {
            data.push(self.memory[start + index]);
            index = index + 1;
            assert(self.memory@.subrange(start as int, start + index) == self.memory@.subrange(
                start as int,
                start + index - 1,
            ).push(self.memory@[start + index - 1]));
        }
        data
    }

    /// Writes `data` from `addr` on.
    pub fn write(&mut self, addr: usize, data: &[u8])
        requires
            old(self).wf(),
            old(self)@.in_pool(addr as int, data@.len() as int),
        ensures
            final(self).wf(),
            final(self)@ == old(self)@.with_bytes(addr as int, data@),
    {
        let start = addr - self.origin;
        let len = data.len();
        let mut index: usize = 0;
        while index < len
            invariant
                self.origin == old(self).origin,
                self.regions == old(self).regions,
                start == addr - self.origin,
                len == data@.len(),
                start + len <= self.memory@.len(),
                self.memory@.len() == old(self).memory@.len(),
                self.memory@.len() <= usize::MAX,
                index <= len,
                forall|i: int|
                    0 <= i < self.memory@.len() ==> self.memory@[i] == (if start <= i < start
                        + index {
                        data@[i - start]
                    } else {
                        old(self).memory@[i]
                    }),
            decreases len - index,
        {
            self.memory.set(start + index, data[index]);
            index = index + 1;
        }
        assert(self@.contents =~= old(self)@.with_bytes(addr as int, data@).contents);
    }

    /// Writes `value` into each of the `len` bytes from `addr` on.
    pub fn fill(&mut self, addr: usize, len: usize, value: u8)
        requires
            old(self).wf(),
            old(self)@.in_pool(addr as int, len as int),
        ensures
            final(self).wf(),
            final(self)@ == old(self)@.with_bytes(
                addr as int,
                Seq::new(len as nat, |i: int| value),
            ),
    {
        let start = addr - self.origin;
        let mut index: usize = 0;
        while index < len
            invariant
                self.origin == old(self).origin,
                self.regions == old(self).regions,
                start == addr - self.origin,
                start + len <= self.memory@.len(),
                self.memory@.len() == old(self).memory@.len(),
                self.memory@.len() <= usize::MAX,
                index <= len,
                forall|i: int|
                    0 <= i < self.memory@.len() ==> self.memory@[i] == (if start <= i < start
                        + index {
                        value
                    } else {
                        old(self).memory@[i]
                    }),
            decreases len - index,
        {
            self.memory.set(start + index, value);
            index = index + 1;
        }
        assert(self@.contents =~= old(self)@.with_bytes(
            addr as int,
            Seq::new(len as nat, |i: int| value),
        ).contents);
    }

    /// Copies the `len` bytes from `source` on to `target`; the two runs of
    /// bytes must not overlap.
    pub fn copy(&mut self, source: usize, target: usize, len: usize)
        requires
            old(self).wf(),
            old(self)@.in_pool(source as int, len as int),
            old(self)@.in_pool(target as int, len as int),
            apart(source as int, len as int, target as int, len as int),
        ensures
            final(self).wf(),
            final(self)@ == old(self)@.with_bytes(
                target as int,
                old(self)@.bytes(source as int, len as int),
            ),
    {
        let from = source - self.origin;
        let to = target - self.origin;
        let mut index: usize = 0;
        while index < len
            invariant
                self.origin == old(self).origin,
                self.regions == old(self).regions,
                from == source - self.origin,
                to == target - self.origin,
                from + len <= self.memory@.len(),
                to + len <= self.memory@.len(),
                from + len <= to || to + len <= from,
                self.memory@.len() == old(self).memory@.len(),
                self.memory@.len() <= usize::MAX,
                index <= len,
                forall|i: int|
                    0 <= i < self.memory@.len() ==> self.memory@[i] == (if to <= i < to + index {
                        old(self).memory@[i - to + from]
                    } else {
                        old(self).memory@[i]
                    }),
            decreases len - index,
        {
            let value = self.memory[from + index];
            self.memory.set(to + index, value);
            index = index + 1;
        }
        assert(self@.contents =~= old(self)@.with_bytes(
            target as int,
            old(self)@.bytes(source as int, len as int),
        ).contents);
    }
}

} // verus!
