use vstd::prelude::*;

use crate::addr::{PhysicalAddress, VirtualAddress};
use crate::error::KError;
use crate::paging::{
    PageSize, Permissions, Sv39PageTable, PPN_MASK, canonical, maps_page, map_result, same_path, in_pages,
    pte_make, read_write_perms, lemma_collides_iff_mapped, lemma_same_path_iff_in_page,
};
use vstd::arithmetic::div_mod::lemma_fundamental_div_mod_converse;

verus! {

/// Physical devices are reached at this offset from their physical address.
pub const MMIO_DEVICE_OFFSET: u64 = 0xFFFF_FFE0_0000_0000;

/// The `satp` mode field for Sv39.
pub const SATP_MODE_SV39: u64 = 8;

/// A frame can be handed out: it is page aligned and its page number fits an
/// entry.
pub open spec fn frame_ok(f: PhysicalAddress) -> bool {
    f.0 % 4096 == 0 && f.0 / 4096 <= PPN_MASK
}

/// Every page of the `n` pages of 4 KiB from `base` is canonical.
pub open spec fn range_canonical(base: u64, n: int) -> bool {
    forall|va: u64| in_pages(base, va, n) ==> #[trigger] canonical(va)
}

/// No page of the `n` pages of 4 KiB from `base` translates.
pub open spec fn range_unmapped(pt: Sv39PageTable, base: u64, n: int) -> bool {
    forall|k: int| 0 <= k < n ==> #[trigger] pt.translate_spec((base + 4096 * k) as u64) is None
}

/// The frames that back a device range: page `k` of it is the `k`-th page
/// from `from`.
pub open spec fn mmio_frames(from: u64, n: int) -> Seq<u64> {
    Seq::new(n as nat, |k: int| (from + 4096 * k) as u64)
}

/// The addresses of the first `n` frames that a pool holding `frames` hands
/// out, in the order it hands them out.
pub open spec fn taken_frames(frames: Seq<PhysicalAddress>, n: int) -> Seq<u64> {
    Seq::new(n as nat, |k: int| frames[frames.len() - 1 - k].0)
}

/// `after` is `before` with the first `n` pages of 4 KiB from `base` mapped
/// to `frames` with `perms`: byte `o` of page `k` translates to byte `o` of
/// `frames[k]`, each page's leaf is a 4 KiB leaf holding that frame and the
/// bits of `perms`, and every address outside the pages translates as before.
#[verifier::opaque]
pub open spec fn maps_range(
    before: Sv39PageTable,
    after: Sv39PageTable,
    base: u64,
    frames: Seq<u64>,
    perms: Permissions,
    n: int,
) -> bool {
    &&& forall|k: int, o: int|
        0 <= k < n && 0 <= o < 4096 ==> #[trigger] after.translate_spec((base + 4096 * k + o) as u64) == Some(
            frames[k] + o,
        )
    &&& forall|k: int|
        0 <= k < n ==> #[trigger] after.leaf_level((base + 4096 * k) as u64) == 0 && after.leaf_entry(
            (base + 4096 * k) as u64,
        ) == pte_make((frames[k] / 4096) as u64, perms.bits_spec())
    &&& forall|va: u64| !in_pages(base, va, n) ==> #[trigger] after.translate_spec(va) == before.translate_spec(va)
}

/// One more page of a range: mapping page `idx` after the pages before it
/// extends the mapped range by that page.
proof fn lemma_range_step(
    orig: Sv39PageTable,
    before: Sv39PageTable,
    after: Sv39PageTable,
    base: u64,
    frames: Seq<u64>,
    perms: Permissions,
    idx: int,
)
    requires
        0 <= idx < frames.len(),
        base % 4096 == 0,
        base + 4096 * (idx + 1) <= u64::MAX + 1,
        canonical((base + 4096 * idx) as u64),
        maps_range(orig, before, base, frames, perms, idx),
        maps_page(before, after, frames[idx], (base + 4096 * idx) as u64, PageSize::Kilopage, perms),
        frames[idx] % 4096 == 0,
    ensures
        maps_range(orig, after, base, frames, perms, idx + 1),
{
    reveal(maps_range);
    let p = (base + 4096 * idx) as u64;
    assert forall|k: int, o: int|
        0 <= k < idx + 1 && 0 <= o < 4096 implies #[trigger] after.translate_spec((base + 4096 * k + o) as u64)
        == Some(frames[k] + o) by {
        let va = (base + 4096 * k + o) as u64;
        if canonical(va) {
            lemma_same_path_iff_in_page(p, va);
        }
        if k == idx {
            lemma_fundamental_div_mod_converse(va as int, 4096, (base / 4096 + idx) as int, o);
            lemma_fundamental_div_mod_converse(base as int, 4096, (base / 4096) as int, 0);
        }
    }
    assert forall|k: int|
        0 <= k < idx + 1 implies #[trigger] after.leaf_level((base + 4096 * k) as u64) == 0 && after.leaf_entry(
        (base + 4096 * k) as u64,
    ) == pte_make((frames[k] / 4096) as u64, perms.bits_spec()) by {
        let va = (base + 4096 * k) as u64;
        if canonical(va) {
            lemma_same_path_iff_in_page(p, va);
        }
        if k < idx {
            assert(!same_path(p, va, 0));
            assert(after.walk(va) == before.walk(va));
            assert(before.leaf_level(va) == 0);
            assert(before.leaf_entry(va) == pte_make((frames[k] / 4096) as u64, perms.bits_spec()));
        } else {
            assert(va == p);
            assert(after.leaf_level(p) == 0);
            assert(after.leaf_entry(p) == pte_make((frames[idx] / 4096) as u64, perms.bits_spec()));
        }
    }
    assert forall|va: u64| !in_pages(base, va, idx + 1) implies #[trigger] after.translate_spec(va)
        == orig.translate_spec(va) by {
        if canonical(va) {
            lemma_same_path_iff_in_page(p, va);
        }
        assert(!in_pages(base, va, idx));
    }
}

/// The next page of a range that was unmapped to begin with is still unmapped
/// once the pages before it are mapped, so mapping it meets no collision.
proof fn lemma_next_page_free(orig: Sv39PageTable, cur: Sv39PageTable, base: u64, frames: Seq<u64>, perms: Permissions, idx: int, n: int)
    requires
        cur.wf(),
        0 <= idx < n,
        base + 4096 * n <= u64::MAX + 1,
        canonical((base + 4096 * idx) as u64),
        range_unmapped(orig, base, n),
        maps_range(orig, cur, base, frames, perms, idx),
    ensures
        !cur.collides((base + 4096 * idx) as u64, 0),
{
    reveal(maps_range);
    let va = (base + 4096 * idx) as u64;
    assert(!in_pages(base, va, idx));
    assert(orig.translate_spec(va) is None);
    lemma_collides_iff_mapped(cur, va);
}

/// Byte `o` of page `k` of a mapped range translates to byte `o` of its frame,
/// and the page's leaf holds the frame and the bits of `perms`.
pub proof fn lemma_maps_range_page(
    before: Sv39PageTable,
    after: Sv39PageTable,
    base: u64,
    frames: Seq<u64>,
    perms: Permissions,
    n: int,
    k: int,
    o: int,
)
    requires
        maps_range(before, after, base, frames, perms, n),
        0 <= k < n,
        0 <= o < 4096,
    ensures
        after.translate_spec((base + 4096 * k + o) as u64) == Some(frames[k] + o),
        after.leaf_level((base + 4096 * k) as u64) == 0,
        after.leaf_entry((base + 4096 * k) as u64) == pte_make((frames[k] / 4096) as u64, perms.bits_spec()),
{
    reveal(maps_range);
}

/// An address outside a mapped range translates as before.
pub proof fn lemma_maps_range_outside(
    before: Sv39PageTable,
    after: Sv39PageTable,
    base: u64,
    frames: Seq<u64>,
    perms: Permissions,
    n: int,
    va: u64,
)
    requires
        maps_range(before, after, base, frames, perms, n),
        !in_pages(base, va, n),
    ensures
        after.translate_spec(va) == before.translate_spec(va),
{
    reveal(maps_range);
}

/// Nothing is mapped yet in an empty range.
proof fn lemma_empty_range(pt: Sv39PageTable, base: u64, frames: Seq<u64>, perms: Permissions)
    ensures
        maps_range(pt, pt, base, frames, perms, 0),
{
    reveal(maps_range);
}

/// The 4 KiB frames that are free, handed out last in, first out.
pub struct PhysicalFrames {
    free: Vec<PhysicalAddress>,
}

impl PhysicalFrames {
    pub closed spec fn view_frames(&self) -> Seq<PhysicalAddress> {
        self.free@
    }

    pub closed spec fn wf(&self) -> bool {
        forall|i: int| 0 <= i < self.free@.len() ==> frame_ok(#[trigger] self.free@[i])
    }

    /// Every frame in a well-formed pool can be handed out.
    pub proof fn lemma_frames_ok(&self)
        requires
            self.wf(),
        ensures
            forall|i: int| 0 <= i < self.view_frames().len() ==> frame_ok(#[trigger] self.view_frames()[i]),
    {
    }

    pub fn new() -> (r: Self)
        ensures
            r.wf(),
            r.view_frames().len() == 0,
    {
        PhysicalFrames { free: Vec::new() }
    }

    /// Returns `frame` to the pool.
    pub fn free_frame(&mut self, frame: PhysicalAddress) -> (r: Result<(), KError>)
        requires
            old(self).wf(),
        ensures
            final(self).wf(),
            r is Ok <==> frame_ok(frame),
            r is Ok ==> final(self).view_frames() == old(self).view_frames().push(frame),
            r is Err ==> r == Err::<(), KError>(KError::InvalidArgument) && *final(self) == *old(self),
    {
        if frame.0 % 4096 != 0 || frame.0 / 4096 > PPN_MASK {
            return Err(KError::InvalidArgument);
        }
        self.free.push(frame);
        Ok(())
    }

    /// Takes the frame returned last; none when the pool is empty.
    pub fn alloc_frame(&mut self) -> (r: Option<PhysicalAddress>)
        requires
            old(self).wf(),
        ensures
            final(self).wf(),
            old(self).view_frames().len() == 0 ==> r is None && *final(self) == *old(self),
            old(self).view_frames().len() > 0 ==> {
                &&& r == Some(old(self).view_frames().last())
                &&& final(self).view_frames() == old(self).view_frames().drop_last()
                &&& frame_ok(r->0)
            },
    {
        if self.free.len() == 0 {
            return None;
        }
        let r = self.free.pop();
        proof {
            if old(self).free@.len() > 0 {
                assert(frame_ok(old(self).free@[old(self).free@.len() - 1]));
            }
        }
        r
    }

    pub fn len(&self) -> (r: usize)
        ensures
            r == self.view_frames().len(),
    {
        self.free.len()
    }
}

/// The kernel's root page table and the frames that back new pages.
pub struct PageTableManager {
    pub root: Sv39PageTable,
    pub frames: PhysicalFrames,
}

impl PageTableManager {
    pub open spec fn wf(&self) -> bool {
        self.root.wf() && self.frames.wf()
    }

    pub fn new(root: Sv39PageTable, frames: PhysicalFrames) -> (r: Self)
        ensures
            r.root == root,
            r.frames == frames,
    {
        PageTableManager { root, frames }
    }

    /// A free frame; none when the pool is empty.
    fn new_phys_page(&mut self) -> (r: Option<PhysicalAddress>)
        requires
            old(self).wf(),
        ensures
            final(self).wf(),
            final(self).root == old(self).root,
            old(self).frames.view_frames().len() == 0 ==> r is None && *final(self) == *old(self),
            old(self).frames.view_frames().len() > 0 ==> {
                &&& r == Some(old(self).frames.view_frames().last())
                &&& final(self).frames.view_frames() == old(self).frames.view_frames().drop_last()
                &&& frame_ok(r->0)
            },
    {
        self.frames.alloc_frame()
    }

    /// Maps an existing physical range at `map_to`, with no frame taken from
    /// the pool.
    pub fn map_direct(
        &mut self,
        map_from: PhysicalAddress,
        map_to: VirtualAddress,
        size: PageSize,
        perms: Permissions,
    ) -> (r: Result<(), KError>)
        requires
            old(self).wf(),
        ensures
            final(self).wf(),
            final(self).frames == old(self).frames,
            r == map_result(old(self).root, map_from.0, map_to.0, size, perms),
            final(self).root.capacity_spec() == old(self).root.capacity_spec(),
            r is Err ==> final(self).root == old(self).root,
            r is Ok ==> maps_page(old(self).root, final(self).root, map_from.0, map_to.0, size, perms),
            r is Ok ==> final(self).root.num_tables() == old(self).root.num_tables() + old(
                self,
            ).root.tables_needed(map_to.0, size.level()),
    {
        self.root.map(map_from, map_to, size, perms)
    }

    /// Backs the 4 KiB page at `map_to` with a fresh frame, the one that the
    /// pool hands out next. Where the mapping fails the frame goes back.
    pub fn alloc_virtual(&mut self, map_to: VirtualAddress, perms: Permissions) -> (r: Result<
        PhysicalAddress,
        KError,
    >)
        requires
            old(self).wf(),
        ensures
            final(self).wf(),
            old(self).frames.view_frames().len() == 0 ==> r == Err::<PhysicalAddress, KError>(
                KError::OutOfMemory,
            ),
            old(self).frames.view_frames().len() > 0 ==> {
                let frame = old(self).frames.view_frames().last();
                &&& r is Ok <==> map_result(old(self).root, frame.0, map_to.0, PageSize::Kilopage, perms) is Ok
                &&& r is Err ==> r == Err::<PhysicalAddress, KError>(
                    map_result(old(self).root, frame.0, map_to.0, PageSize::Kilopage, perms)->Err_0,
                )
                &&& r is Ok ==> r->Ok_0 == frame
            },
            final(self).root.capacity_spec() == old(self).root.capacity_spec(),
            old(self).frames.view_frames().len() > 0 ==> frame_ok(old(self).frames.view_frames().last()),
            r is Err ==> final(self).root == old(self).root && final(self).frames.view_frames() == old(
                self,
            ).frames.view_frames(),
            r is Ok ==> final(self).root.num_tables() == old(self).root.num_tables() + old(self).root.tables_needed(
                map_to.0,
                0,
            ),
            r is Ok ==> {
                &&& maps_page(old(self).root, final(self).root, r->Ok_0.0, map_to.0, PageSize::Kilopage, perms)
                &&& final(self).frames.view_frames() == old(self).frames.view_frames().drop_last()
            },
    {
        let ghost before = *self;
        proof {
            self.frames.lemma_frames_ok();
        }
        let phys = match self.new_phys_page() {
            Some(p) => p,
            None => {
                return Err(KError::OutOfMemory);
            },
        };
        match self.root.map(phys, map_to, PageSize::Kilopage, perms) {
            Ok(()) => Ok(phys),
            Err(e) => {
                let back = self.frames.free_frame(phys);
                proof {
                    assert(self.frames.view_frames() =~= before.frames.view_frames());
                }
                Err(e)
            },
        }
    }

    /// Backs every 4 KiB page of `size` bytes from `start` with a fresh
    /// frame, page `k` with the `k`-th frame that the pool hands out. Stops
    /// at the first page that fails, keeping the pages before.
    #[verifier::rlimit(60)]
    pub fn alloc_virtual_range(&mut self, start: VirtualAddress, size: u64, perms: Permissions) -> (r: Result<
        (),
        KError,
    >)
        requires
            old(self).wf(),
        ensures
            final(self).wf(),
            (size % 4096 != 0 || start.0 + size > u64::MAX) ==> r == Err::<(), KError>(KError::InvalidArgument)
                && *final(self) == *old(self),
            ({
                let n = size as int / 4096;
                (size % 4096 == 0 && start.0 % 4096 == 0 && start.0 + size <= u64::MAX && perms.is_valid_spec()
                    && range_canonical(start.0, n) && range_unmapped(old(self).root, start.0, n) && n
                    <= old(self).frames.view_frames().len() && old(self).root.free_tables() >= 2 * n) ==> r is Ok
            }),
            r is Ok ==> {
                let n = size as int / 4096;
                let frames = old(self).frames.view_frames();
                &&& n <= frames.len()
                &&& final(self).frames.view_frames() == frames.subrange(0, frames.len() - n)
                &&& maps_range(old(self).root, final(self).root, start.0, taken_frames(frames, n), perms, n)
            },
    {
        if size % 4096 != 0 || start.0 > u64::MAX - size {
            return Err(KError::InvalidArgument);
        }
        let n = size / 4096;
        let ghost frames0 = self.frames.view_frames();
        let ghost owed = start.0 % 4096 == 0 && perms.is_valid_spec() && range_canonical(start.0, n as int)
            && range_unmapped(old(self).root, start.0, n as int) && n <= frames0.len() && old(self).root.free_tables()
            >= 2 * n;
        let ghost taken = taken_frames(frames0, n as int);
        let mut idx: u64 = 0;
        proof {
            lemma_empty_range(old(self).root, start.0, taken, perms);
        }
        while idx < n
            invariant
                self.wf(),
                n == size / 4096,
                size % 4096 == 0,
                start.0 + size <= u64::MAX,
                idx <= n,
                frames0 == old(self).frames.view_frames(),
                taken == taken_frames(frames0, n as int),
                idx <= frames0.len(),
                self.frames.view_frames() == frames0.subrange(0, frames0.len() - idx),
                self.root.capacity_spec() == old(self).root.capacity_spec(),
                owed == (start.0 % 4096 == 0 && perms.is_valid_spec() && range_canonical(start.0, n as int)
                    && range_unmapped(old(self).root, start.0, n as int) && n <= frames0.len() && old(
                    self,
                ).root.free_tables() >= 2 * n),
                owed ==> self.root.free_tables() >= 2 * (n - idx),
                maps_range(old(self).root, self.root, start.0, taken, perms, idx as int),
            decreases n - idx,
        {
            let va = VirtualAddress(start.0 + idx * 4096);
            let ghost before = *self;
            proof {
                self.frames.lemma_frames_ok();
                if owed {
                    assert(canonical(va.0));
                    lemma_next_page_free(old(self).root, before.root, start.0, taken, perms, idx as int, n as int);
                    assert(self.frames.view_frames()[frames0.len() - 1 - idx] == frames0[frames0.len() - 1 - idx]);
                    assert(frame_ok(frames0[frames0.len() - 1 - idx]));
                    assert(before.frames.view_frames().last() == frames0[frames0.len() - 1 - idx]);
                }
            }
            let phys = match self.alloc_virtual(va, perms) {
                Ok(p) => p,
                Err(e) => {
                    return Err(e);
                },
            };
            proof {
                assert(phys == frames0[frames0.len() - 1 - idx]);
                assert(self.frames.view_frames() =~= frames0.subrange(0, frames0.len() - (idx + 1)));
                assert(taken[idx as int] == phys.0);
                assert(map_result(before.root, phys.0, va.0, PageSize::Kilopage, perms) is Ok);
                assert(va.0 % 4096 == 0 && canonical(va.0));
                assert(start.0 % 4096 == 0);
                lemma_range_step(old(self).root, before.root, self.root, start.0, taken, perms, idx as int);
            }
            idx = idx + 1;
        }
        Ok(())
    }

    /// Maps the device range of `size` bytes at `map_from` read/write, not
    /// executable, not user, in 4 KiB pages at `MMIO_DEVICE_OFFSET + map_from`,
    /// and returns that address.
    #[verifier::rlimit(60)]
    pub fn map_mmio(&mut self, map_from: PhysicalAddress, size: u64) -> (r: Result<VirtualAddress, KError>)
        requires
            old(self).wf(),
        ensures
            final(self).wf(),
            final(self).frames == old(self).frames,
            (size % 4096 != 0 || map_from.0 % 4096 != 0 || map_from.0 + size > u64::MAX - MMIO_DEVICE_OFFSET)
                ==> r == Err::<VirtualAddress, KError>(KError::InvalidArgument) && *final(self) == *old(self),
            ({
                let n = size as int / 4096;
                (size % 4096 == 0 && map_from.0 % 4096 == 0 && map_from.0 + size <= u64::MAX - MMIO_DEVICE_OFFSET
                    && range_unmapped(old(self).root, (map_from.0 + MMIO_DEVICE_OFFSET) as u64, n) && old(
                    self,
                ).root.free_tables() >= 2 * n) ==> r is Ok
            }),
            r is Err ==> r->Err_0 != KError::InvalidCapability && r->Err_0 != KError::WouldBlock,
            r is Ok ==> {
                &&& r->Ok_0.0 == map_from.0 + MMIO_DEVICE_OFFSET
                &&& maps_range(
                    old(self).root,
                    final(self).root,
                    r->Ok_0.0,
                    mmio_frames(map_from.0, size as int / 4096),
                    read_write_perms(),
                    size as int / 4096,
                )
            },
    {
        if size % 4096 != 0 || map_from.0 % 4096 != 0 || map_from.0 > u64::MAX - MMIO_DEVICE_OFFSET || size > u64::MAX - MMIO_DEVICE_OFFSET
            - map_from.0 {
            return Err(KError::InvalidArgument);
        }
        let map_to = VirtualAddress(map_from.0 + MMIO_DEVICE_OFFSET);
        let n = size / 4096;
        let ghost frames = mmio_frames(map_from.0, n as int);
        let ghost owed = range_unmapped(old(self).root, map_to.0, n as int) && old(self).root.free_tables() >= 2 * n;
        let mut idx: u64 = 0;
        proof {
            lemma_empty_range(old(self).root, map_to.0, frames, read_write_perms());
        }
        while idx < n
            invariant
                self.wf(),
                self.frames == old(self).frames,
                n == size / 4096,
                size % 4096 == 0,
                map_from.0 % 4096 == 0,
                map_from.0 + size <= u64::MAX - MMIO_DEVICE_OFFSET,
                map_to.0 == map_from.0 + MMIO_DEVICE_OFFSET,
                frames == mmio_frames(map_from.0, n as int),
                idx <= n,
                self.root.capacity_spec() == old(self).root.capacity_spec(),
                owed == (range_unmapped(old(self).root, map_to.0, n as int) && old(self).root.free_tables() >= 2 * n),
                owed ==> self.root.free_tables() >= 2 * (n - idx),
                maps_range(old(self).root, self.root, map_to.0, frames, read_write_perms(), idx as int),
            decreases n - idx,
        {
            let ghost before = *self;
            let va = VirtualAddress(map_to.0 + idx * 4096);
            let pa = PhysicalAddress(map_from.0 + idx * 4096);
            proof {
                assert(canonical(va.0));
                if owed {
                    lemma_next_page_free(old(self).root, before.root, map_to.0, frames, read_write_perms(), idx as int, n as int);
                }
            }
            let res = self.map_direct(pa, va, PageSize::Kilopage, Permissions::read_write());
            match res {
                Ok(()) => {},
                Err(e) => {
                    return Err(e);
                },
            }
            proof {
                assert(frames[idx as int] == pa.0);
                lemma_range_step(old(self).root, before.root, self.root, map_to.0, frames, read_write_perms(), idx as int);
            }
            idx = idx + 1;
        }
        Ok(map_to)
    }

    /// The value of `satp` that installs the root: Sv39 mode, address space
    /// 0, and the root's page number.
    pub fn satp_value(&self) -> (r: u64)
        requires
            self.wf(),
        ensures
            r == (SATP_MODE_SV39 << 60u64) | (self.root.base_ppn_spec() as u64),
    {
        let root = self.root.root_address();
        (SATP_MODE_SV39 << 60u64) | (root.0 / 4096)
    }

    /// Clears the leaf that maps `va`.
    pub fn unmap(&mut self, va: VirtualAddress) -> (r: Result<(), KError>)
        requires
            old(self).wf(),
        ensures
            final(self).wf(),
            final(self).frames == old(self).frames,
            final(self).root.capacity_spec() == old(self).root.capacity_spec(),
            final(self).root.num_tables() == old(self).root.num_tables(),
            r is Ok <==> old(self).root.walk(va.0) is Some,
            r is Err ==> *final(self) == *old(self),
            r is Ok ==> crate::paging::unmaps_page(old(self).root, final(self).root, va.0),
    {
        self.root.unmap(va)
    }

    pub fn is_mapped(&self, va: VirtualAddress) -> (r: bool)
        requires
            self.wf(),
        ensures
            r == self.root.translate_spec(va.0) is Some,
    {
        self.root.is_mapped(va)
    }

    pub fn translate(&self, va: VirtualAddress) -> (r: Option<PhysicalAddress>)
        requires
            self.wf(),
        ensures
            r is Some <==> self.root.translate_spec(va.0) is Some,
            r is Some ==> r->0 == PhysicalAddress(self.root.translate_spec(va.0)->0 as u64),
    {
        self.root.translate(va)
    }
}

} // verus!
