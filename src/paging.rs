use vstd::prelude::*;
use vstd::arithmetic::div_mod::*;

use crate::addr::{PhysicalAddress, VirtualAddress};
use crate::error::KError;

verus! {

/// Mask of the 44-bit physical page number once shifted down.
pub const PPN_MASK: u64 = 0xFFF_FFFF_FFFF;

/// The permission bits (read, write, execute) of an entry.
pub const RWX_BITS: u64 = 0xE;

/// The lowest canonical address of the upper half.
pub const UPPER_HALF_START: u64 = 0xFFFF_FFC0_0000_0000;

/// One past the highest canonical address of the lower half.
pub const LOWER_HALF_END: u64 = 0x40_0000_0000;

// ---------------------------------------------------------------------------
// Entries

pub open spec fn pte_valid(e: u64) -> bool {
    e & 1 == 1
}

pub open spec fn pte_rwx(e: u64) -> u64 {
    e & RWX_BITS
}

/// A valid entry with at least one of R, W, X set maps memory.
pub open spec fn pte_leaf(e: u64) -> bool {
    pte_valid(e) && pte_rwx(e) != 0
}

/// A valid entry with none of R, W, X set points at the next table.
pub open spec fn pte_branch(e: u64) -> bool {
    pte_valid(e) && pte_rwx(e) == 0
}

pub open spec fn pte_ppn(e: u64) -> u64 {
    (e >> 10u64) & PPN_MASK
}

pub open spec fn pte_make(ppn: u64, flags: u64) -> u64 {
    (ppn << 10u64) | flags | 1
}

pub proof fn lemma_pte_make(ppn: u64, flags: u64)
    requires
        ppn <= PPN_MASK,
        flags < 1024,
    ensures
        pte_valid(pte_make(ppn, flags)),
        pte_rwx(pte_make(ppn, flags)) == flags & RWX_BITS,
        pte_ppn(pte_make(ppn, flags)) == ppn,
        pte_make(ppn, flags) & 0x10 == flags & 0x10,
{
    assert(((ppn << 10u64) | flags | 1) & 1 == 1) by (bit_vector);
    assert(((ppn << 10u64) | flags | 1) & 0xE == flags & 0xE) by (bit_vector)
        requires
            flags < 1024,
    ;
    assert(((ppn << 10u64) | flags | 1) & 0x10 == flags & 0x10) by (bit_vector)
        requires
            flags < 1024,
    ;
    assert(((((ppn << 10u64) | flags | 1) >> 10u64) & 0xFFF_FFFF_FFFF) == ppn) by (bit_vector)
        requires
            ppn <= 0xFFF_FFFF_FFFF,
            flags < 1024,
    ;
}

pub proof fn lemma_zero_entry_invalid()
    ensures
        !pte_valid(0),
{
    assert(0u64 & 1 != 1) by (bit_vector);
}

/// A 64-bit Sv39 page-table entry in its wire format.
#[derive(Debug, Clone, Copy, PartialEq, Eq, Structural)]
pub struct Sv39PageTableEntry(pub u64);

impl Sv39PageTableEntry {
    /// The invalid entry.
    pub fn new() -> (r: Self)
        ensures
            r.0 == 0,
            !pte_valid(r.0),
    {
        proof {
            lemma_zero_entry_invalid();
        }
        Sv39PageTableEntry(0)
    }

    /// A leaf entry mapping the page at physical address `phys`.
    pub fn leaf(phys: PhysicalAddress, perms: Permissions) -> (r: Self)
        requires
            phys.0 / 4096 <= PPN_MASK,
            perms.is_valid_spec(),
        ensures
            r.0 == pte_make((phys.0 / 4096) as u64, perms.bits_spec()),
            pte_leaf(r.0),
            pte_ppn(r.0) == phys.0 / 4096,
    {
        let ppn = (phys.0 / 4096) as u64;
        let flags = perms.bits();
        proof {
            lemma_pte_make(ppn, flags);
            perms.lemma_bits();
        }
        Sv39PageTableEntry((ppn << 10u64) | flags | 1)
    }

    /// A branch entry pointing at the table with physical address `table`.
    pub fn branch(table: PhysicalAddress) -> (r: Self)
        requires
            table.0 / 4096 <= PPN_MASK,
        ensures
            r.0 == pte_make((table.0 / 4096) as u64, 0),
            pte_branch(r.0),
            pte_ppn(r.0) == table.0 / 4096,
    {
        let ppn = (table.0 / 4096) as u64;
        proof {
            lemma_pte_make(ppn, 0);
            assert(0u64 & RWX_BITS == 0) by (bit_vector);
        }
        Sv39PageTableEntry((ppn << 10u64) | 0 | 1)
    }

    pub fn is_valid(&self) -> (r: bool)
        ensures
            r == pte_valid(self.0),
    {
        self.0 & 1 == 1
    }

    pub fn is_leaf(&self) -> (r: bool)
        ensures
            r == pte_leaf(self.0),
    {
        self.0 & 1 == 1 && self.0 & RWX_BITS != 0
    }

    pub fn is_branch(&self) -> (r: bool)
        ensures
            r == pte_branch(self.0),
    {
        self.0 & 1 == 1 && self.0 & RWX_BITS == 0
    }

    pub fn ppn(&self) -> (r: u64)
        ensures
            r == pte_ppn(self.0),
            r <= PPN_MASK,
    {
        let e = self.0;
        assert((e >> 10u64) & 0xFFF_FFFF_FFFF <= 0xFFF_FFFF_FFFF) by (bit_vector);
        (e >> 10u64) & PPN_MASK
    }

    /// The physical address that the entry's page number names.
    pub fn physical_address(&self) -> (r: PhysicalAddress)
        ensures
            r.0 == pte_ppn(self.0) * 4096,
    {
        let ppn = self.ppn();
        PhysicalAddress(ppn * 4096)
    }

    /// The same entry with its valid bit cleared.
    pub fn invalidated(&self) -> (r: Self)
        ensures
            !pte_valid(r.0),
            r.0 == self.0 & !1u64,
    {
        let e = self.0;
        assert((e & !1u64) & 1 != 1) by (bit_vector);
        Sv39PageTableEntry(e & !1u64)
    }
}

// ---------------------------------------------------------------------------
// Permissions and page sizes

/// A combination of read, write and execute rights, and user access.
#[derive(Debug, Clone, Copy, PartialEq, Eq, Structural)]
pub struct Permissions {
    pub read: bool,
    pub write: bool,
    pub execute: bool,
    pub user: bool,
}

impl Permissions {
    pub open spec fn is_valid_spec(self) -> bool {
        (self.read || self.write || self.execute) && !(self.write && !self.read)
    }

    pub open spec fn bits_spec(self) -> u64 {
        (if self.read { 2u64 } else { 0u64 }) | (if self.write { 4u64 } else { 0u64 }) | (if self.execute {
            8u64
        } else {
            0u64
        }) | (if self.user { 16u64 } else { 0u64 })
    }

    pub fn read_write() -> (r: Self)
        ensures
            r == read_write_perms(),
    {
        Permissions { read: true, write: true, execute: false, user: false }
    }

    /// Sv39 gives no meaning to a page that is writable and not readable,
    /// and a page with no right at all would read as a branch.
    pub fn is_valid(&self) -> (r: bool)
        ensures
            r == self.is_valid_spec(),
    {
        (self.read || self.write || self.execute) && !(self.write && !self.read)
    }

    /// The R, W, X and U bits of an entry.
    pub fn bits(&self) -> (r: u64)
        ensures
            r == self.bits_spec(),
            r < 32,
    {
        proof {
            self.lemma_bits();
        }
        (if self.read { 2u64 } else { 0u64 }) | (if self.write { 4u64 } else { 0u64 }) | (if self.execute {
            8u64
        } else {
            0u64
        }) | (if self.user { 16u64 } else { 0u64 })
    }

    pub proof fn lemma_bits(self)
        ensures
            self.bits_spec() < 32,
            (self.bits_spec() & RWX_BITS == 0) == !(self.read || self.write || self.execute),
            (self.bits_spec() & 2 != 0) == self.read,
            (self.bits_spec() & 4 != 0) == self.write,
            (self.bits_spec() & 8 != 0) == self.execute,
            (self.bits_spec() & 0x10 != 0) == self.user,
    {
        assert(forall|r: u64, w: u64, x: u64, u: u64|
            #![auto]
            (r == 0 || r == 2) && (w == 0 || w == 4) && (x == 0 || x == 8) && (u == 0 || u == 16) ==> {
                &&& (r | w | x | u) < 32
                &&& (((r | w | x | u) & 0xE == 0) == (r == 0 && w == 0 && x == 0))
                &&& ((r | w | x | u) & 2 != 0) == (r == 2)
                &&& ((r | w | x | u) & 4 != 0) == (w == 4)
                &&& ((r | w | x | u) & 8 != 0) == (x == 8)
                &&& ((r | w | x | u) & 0x10 != 0) == (u == 16)
            }) by (bit_vector);
    }
}

/// Read and write, not execute, not user.
pub open spec fn read_write_perms() -> Permissions {
    Permissions { read: true, write: true, execute: false, user: false }
}

/// The three page sizes of Sv39.
#[derive(Debug, Clone, Copy, PartialEq, Eq, Structural)]
pub enum PageSize {
    /// 4 KiB, a leaf in a level-0 table.
    Kilopage,
    /// 2 MiB, a leaf in a level-1 table.
    Megapage,
    /// 1 GiB, a leaf in the root table.
    Gigapage,
}

pub open spec fn level_bytes(level: int) -> int {
    if level == 2 {
        0x4000_0000
    } else if level == 1 {
        0x20_0000
    } else {
        0x1000
    }
}

impl PageSize {
    pub open spec fn level(self) -> int {
        match self {
            PageSize::Kilopage => 0,
            PageSize::Megapage => 1,
            PageSize::Gigapage => 2,
        }
    }

    pub open spec fn bytes_spec(self) -> int {
        level_bytes(self.level())
    }

    pub fn to_byte_size(&self) -> (r: usize)
        ensures
            r == self.bytes_spec(),
    {
        match self {
            PageSize::Kilopage => 0x1000,
            PageSize::Megapage => 0x20_0000,
            PageSize::Gigapage => 0x4000_0000,
        }
    }
}

// ---------------------------------------------------------------------------
// Virtual address layout

/// Bits 63:39 equal bit 38.
pub open spec fn canonical(va: u64) -> bool {
    va < LOWER_HALF_END || va >= UPPER_HALF_START
}

/// The index that a table at `level` takes from `va`.
pub open spec fn vpn(va: u64, level: int) -> int {
    (va as int / level_bytes(level)) % 512
}

pub fn is_canonical(va: u64) -> (r: bool)
    ensures
        r == canonical(va),
{
    va < LOWER_HALF_END || va >= UPPER_HALF_START
}

pub fn vpn_index(va: u64, level: usize) -> (r: usize)
    requires
        level <= 2,
    ensures
        r == vpn(va, level as int),
        r < 512,
{
    if level == 2 {
        ((va / 0x4000_0000) % 512) as usize
    } else if level == 1 {
        ((va / 0x20_0000) % 512) as usize
    } else {
        ((va / 0x1000) % 512) as usize
    }
}

// ---------------------------------------------------------------------------
// The tree of tables

/// The root table and every table below it.
///
/// The tables live in a pool of physically contiguous frames: table `t`
/// occupies the frame with page number `base_ppn + t`, and table 0 is the
/// root. A branch entry names its child by that page number, exactly as the
/// hardware walker reads it; the pool stands in for the kernel's
/// physical-to-virtual translation of table frames.
pub struct Sv39PageTable {
    base_ppn: u64,
    capacity: usize,
    entries: Vec<u64>,
    /// The level of each table: 2 for the root, one less for each step down.
    level: Ghost<Seq<int>>,
    /// For each table, the flat index of the one slot that may point at it.
    parent: Ghost<Seq<int>>,
}

pub open spec fn slot_index(t: int, i: int) -> int {
    t * 512 + i
}

impl Sv39PageTable {
    pub closed spec fn base_ppn_spec(&self) -> int {
        self.base_ppn as int
    }

    pub closed spec fn capacity_spec(&self) -> int {
        self.capacity as int
    }

    /// Number of tables allocated so far.
    pub closed spec fn num_tables(&self) -> int {
        self.entries@.len() as int / 512
    }

    /// Entry `i` of table `t`.
    pub closed spec fn entry(&self, t: int, i: int) -> u64 {
        self.entries@[slot_index(t, i)]
    }

    /// The table that a branch entry names.
    pub open spec fn child(&self, e: u64) -> int {
        pte_ppn(e) as int - self.base_ppn_spec()
    }

    pub closed spec fn wf(&self) -> bool {
        let n = self.num_tables();
        &&& self.entries@.len() == 512 * n
        &&& 1 <= n <= self.capacity
        &&& self.base_ppn + self.capacity <= PPN_MASK + 1
        &&& 512 * self.capacity <= usize::MAX
        &&& self.level@.len() == n
        &&& self.parent@.len() == n
        &&& self.level@[0] == 2
        &&& forall|t: int| 0 <= t < n ==> 0 <= #[trigger] self.level@[t] <= 2
        &&& forall|t: int, i: int|
            #![trigger self.entries@[slot_index(t, i)]]
            0 <= t < n && 0 <= i < 512 && pte_branch(self.entries@[slot_index(t, i)]) ==> {
                let c = pte_ppn(self.entries@[slot_index(t, i)]) - self.base_ppn;
                &&& 0 < c < n
                &&& self.level@[t] >= 1
                &&& self.level@[c] == self.level@[t] - 1
                &&& self.parent@[c] == slot_index(t, i)
            }
    }

    /// The table that the walk of `va` reads at `lvl`.
    pub open spec fn table_at(&self, va: u64, lvl: int) -> Option<int>
        decreases 2 - lvl,
    {
        if lvl >= 2 {
            Some(0)
        } else {
            match self.table_at(va, lvl + 1) {
                Some(t) => {
                    let e = self.entry(t, vpn(va, lvl + 1));
                    if pte_branch(e) {
                        Some(self.child(e))
                    } else {
                        None
                    }
                },
                None => None,
            }
        }
    }

    /// The entry that the walk of `va` reads at `lvl`.
    pub open spec fn slot(&self, va: u64, lvl: int) -> Option<u64> {
        match self.table_at(va, lvl) {
            Some(t) => Some(self.entry(t, vpn(va, lvl))),
            None => None,
        }
    }

    pub open spec fn slot_leaf(&self, va: u64, lvl: int) -> bool {
        self.slot(va, lvl) is Some && pte_leaf(self.slot(va, lvl)->0)
    }

    /// The leaf entry that maps `va`, and its level.
    pub open spec fn walk(&self, va: u64) -> Option<(u64, int)> {
        if !canonical(va) {
            None
        } else if self.slot_leaf(va, 2) {
            Some((self.slot(va, 2)->0, 2))
        } else if self.slot_leaf(va, 1) {
            Some((self.slot(va, 1)->0, 1))
        } else if self.slot_leaf(va, 0) {
            Some((self.slot(va, 0)->0, 0))
        } else {
            None
        }
    }

    /// The level of the leaf that maps `va`.
    pub open spec fn leaf_level(&self, va: u64) -> int {
        match self.walk(va) {
            Some((_, lvl)) => lvl,
            None => 0,
        }
    }

    /// The leaf entry that maps `va`.
    pub open spec fn leaf_entry(&self, va: u64) -> u64 {
        match self.walk(va) {
            Some((e, _)) => e,
            None => 0,
        }
    }

    /// The physical address that `va` translates to.
    pub open spec fn translate_spec(&self, va: u64) -> Option<int> {
        match self.walk(va) {
            Some((e, lvl)) => Some(pte_ppn(e) * 4096 + va as int % level_bytes(lvl)),
            None => None,
        }
    }

    /// Mapping at `lvl` for `va` would land on or cross an existing entry.
    pub open spec fn collides(&self, va: u64, lvl: int) -> bool {
        ||| lvl < 2 && self.slot_leaf(va, 2)
        ||| lvl < 1 && self.slot_leaf(va, 1)
        ||| self.slot(va, lvl) is Some && pte_valid(self.slot(va, lvl)->0)
    }

    /// The tables that mapping at `lvl` for `va` has to add.
    pub open spec fn tables_needed(&self, va: u64, lvl: int) -> int {
        if self.table_at(va, lvl) is Some {
            0
        } else if lvl == 0 && self.table_at(va, 1) is Some {
            1
        } else {
            2 - lvl
        }
    }

    /// Tables that can still be added.
    pub open spec fn free_tables(&self) -> int {
        self.capacity_spec() - self.num_tables()
    }
}

/// `va2` is canonical and shares with `va` the indices of every level from
/// the root down to `lvl`: a leaf at `lvl` maps both.
pub open spec fn same_path(va: u64, va2: u64, lvl: int) -> bool {
    &&& canonical(va2)
    &&& vpn(va2, 2) == vpn(va, 2)
    &&& lvl <= 1 ==> vpn(va2, 1) == vpn(va, 1)
    &&& lvl <= 0 ==> vpn(va2, 0) == vpn(va, 0)
}

/// `after` is `before` with the page of `size` at `virt` mapped to `phys`:
/// every address on that page translates into it, every other address as
/// before, and the walk of `virt` ends at the level of `size` in a leaf
/// holding the frame's page number and the bits of `perms`.
pub open spec fn maps_page(
    before: Sv39PageTable,
    after: Sv39PageTable,
    phys: u64,
    virt: u64,
    size: PageSize,
    perms: Permissions,
) -> bool {
    &&& forall|va: u64|
        #![trigger after.translate_spec(va)]
        after.translate_spec(va) == if same_path(virt, va, size.level()) {
            Some(phys + va as int % size.bytes_spec())
        } else {
            before.translate_spec(va)
        }
    &&& forall|va: u64| !same_path(virt, va, size.level()) ==> #[trigger] after.walk(va) == before.walk(va)
    &&& after.walk(virt) is Some
    &&& after.leaf_level(virt) == size.level()
    &&& after.leaf_entry(virt) == pte_make((phys / 4096) as u64, perms.bits_spec())
}

/// `after` is `before` with the leaf that maps `va` cleared: nothing on its
/// page translates any longer, every other address translates as before, and
/// every walk reads the same tables, so every table and branch entry stays,
/// and the walk of `va` stops at the cleared slot,
/// whose entry keeps every bit but the valid bit.
pub open spec fn unmaps_page(before: Sv39PageTable, after: Sv39PageTable, va: u64) -> bool {
    let lvl = before.leaf_level(va);
    &&& forall|va2: u64|
        #![trigger after.translate_spec(va2)]
        after.translate_spec(va2) == if same_path(va, va2, lvl) {
            None
        } else {
            before.translate_spec(va2)
        }
    &&& forall|va2: u64, l: int| 0 <= l <= 2 ==> #[trigger] after.table_at(va2, l) == before.table_at(va2, l)
    &&& forall|l: int| lvl < l <= 2 ==> #[trigger] after.slot(va, l) == before.slot(va, l)
    &&& after.slot(va, lvl) is Some
    &&& !pte_valid(after.slot(va, lvl)->0)
    &&& after.slot(va, lvl)->0 == before.slot(va, lvl)->0 & !1u64
}

/// What mapping `phys` at `virt` with pages of `size` and `perms` returns:
/// bad arguments first, then a collision, then a lack of table frames.
pub open spec fn map_result(pt: Sv39PageTable, phys: u64, virt: u64, size: PageSize, perms: Permissions) -> Result<
    (),
    KError,
> {
    if !map_arguments_ok(phys, virt, size, perms) {
        Err(KError::InvalidArgument)
    } else if pt.collides(virt, size.level()) {
        Err(KError::InvalidMapping)
    } else if pt.tables_needed(virt, size.level()) > pt.free_tables() {
        Err(KError::OutOfMemory)
    } else {
        Ok(())
    }
}

/// `va` lies in the `n` pages of 4 KiB from `base` on.
pub open spec fn in_pages(base: u64, va: u64, n: int) -> bool {
    base <= va && va - base < 4096 * n
}

/// For a canonical, page-aligned `a`, the canonical addresses that share its
/// indices at every level are exactly those of its page.
pub proof fn lemma_same_path_iff_in_page(a: u64, b: u64)
    requires
        canonical(a),
        canonical(b),
        a % 4096 == 0,
    ensures
        same_path(a, b, 0) <==> in_pages(a, b, 1),
{
    assert((a % 4096 == 0 && (a < 0x40_0000_0000 || a >= 0xFFFF_FFC0_0000_0000) && (b < 0x40_0000_0000 || b
        >= 0xFFFF_FFC0_0000_0000)) ==> ((a / 4096 % 512 == b / 4096 % 512 && a / 0x20_0000 % 512 == b / 0x20_0000
        % 512 && a / 0x4000_0000 % 512 == b / 0x4000_0000 % 512) <==> (a <= b && b - a < 4096))) by (bit_vector);
}

/// Mapping `phys` at `virt` with pages of `size` and `perms` is well-formed.
pub open spec fn map_arguments_ok(phys: u64, virt: u64, size: PageSize, perms: Permissions) -> bool {
    &&& perms.is_valid_spec()
    &&& phys as int % size.bytes_spec() == 0
    &&& virt as int % size.bytes_spec() == 0
    &&& canonical(virt)
    &&& phys / 4096 <= PPN_MASK
}

/// The walk of `va` reads the flat slot `k` at some level.
pub open spec fn reads(pt: &Sv39PageTable, va: u64, k: int) -> bool {
    exists|l: int|
        0 <= l <= 2 && #[trigger] pt.table_at(va, l) is Some && slot_index(pt.table_at(va, l)->0, vpn(va, l))
            == k
}

pub proof fn lemma_vpn_range(va: u64, l: int)
    ensures
        0 <= vpn(va, l) < 512,
{
}

/// A table that the walk reaches at `l` is an allocated table of level `l`.
proof fn lemma_table_at_level(pt: &Sv39PageTable, va: u64, l: int)
    requires
        pt.wf(),
        0 <= l <= 2,
        pt.table_at(va, l) is Some,
    ensures
        0 <= pt.table_at(va, l)->0 < pt.num_tables(),
        pt.level@[pt.table_at(va, l)->0] == l,
    decreases 2 - l,
{
    if l < 2 {
        lemma_table_at_level(pt, va, l + 1);
        let t = pt.table_at(va, l + 1)->0;
        lemma_vpn_range(va, l + 1);
        assert(pt.entries@[slot_index(t, vpn(va, l + 1))] == pt.entry(t, vpn(va, l + 1)));
    }
}

/// The walk reaches a table through one path only.
proof fn lemma_table_at_unique(pt: &Sv39PageTable, va: u64, va2: u64, l: int, l2: int)
    requires
        pt.wf(),
        0 <= l <= 2,
        0 <= l2 <= 2,
        pt.table_at(va, l) is Some,
        pt.table_at(va2, l2) == pt.table_at(va, l),
    ensures
        l == l2,
        l <= 1 ==> vpn(va2, 2) == vpn(va, 2),
        l <= 0 ==> vpn(va2, 1) == vpn(va, 1),
    decreases 2 - l,
{
    lemma_table_at_level(pt, va, l);
    lemma_table_at_level(pt, va2, l2);
    if l < 2 {
        let t = pt.table_at(va, l + 1)->0;
        let t2 = pt.table_at(va2, l + 1)->0;
        lemma_table_at_level(pt, va, l + 1);
        lemma_table_at_level(pt, va2, l + 1);
        lemma_vpn_range(va, l + 1);
        lemma_vpn_range(va2, l + 1);
        assert(pt.entries@[slot_index(t, vpn(va, l + 1))] == pt.entry(t, vpn(va, l + 1)));
        assert(pt.entries@[slot_index(t2, vpn(va2, l + 1))] == pt.entry(t2, vpn(va2, l + 1)));
        assert(t == t2 && vpn(va, l + 1) == vpn(va2, l + 1));
        lemma_table_at_unique(pt, va, va2, l + 1, l + 1);
    }
}

/// The walk down to `l` depends on the indices above `l` only.
pub proof fn lemma_table_at_path(pt: &Sv39PageTable, va: u64, va2: u64, l: int)
    requires
        0 <= l <= 2,
        l <= 1 ==> vpn(va2, 2) == vpn(va, 2),
        l <= 0 ==> vpn(va2, 1) == vpn(va, 1),
    ensures
        pt.table_at(va2, l) == pt.table_at(va, l),
    decreases 2 - l,
{
    if l < 2 {
        lemma_table_at_path(pt, va, va2, l + 1);
    }
}

/// Changing one slot, or adding tables, leaves alone every walk that does
/// not read that slot.
proof fn lemma_frame(a: &Sv39PageTable, b: &Sv39PageTable, k: int, va: u64)
    requires
        a.wf(),
        b.base_ppn == a.base_ppn,
        b.entries@.len() >= a.entries@.len(),
        forall|j: int| 0 <= j < a.entries@.len() && j != k ==> b.entries@[j] == a.entries@[j],
        k < 0 || !reads(a, va, k),
    ensures
        forall|l: int| 0 <= l <= 2 ==> b.table_at(va, l) == a.table_at(va, l),
        forall|l: int| 0 <= l <= 2 ==> b.slot(va, l) == a.slot(va, l),
        b.walk(va) == a.walk(va),
        b.translate_spec(va) == a.translate_spec(va),
{
    lemma_vpn_range(va, 2);
    lemma_vpn_range(va, 1);
    lemma_vpn_range(va, 0);
    assert(a.table_at(va, 2) is Some);
    assert(b.slot(va, 2) == a.slot(va, 2));
    assert(b.table_at(va, 1) == a.table_at(va, 1));
    if a.table_at(va, 1) is Some {
        lemma_table_at_level(a, va, 1);
        assert(b.slot(va, 1) == a.slot(va, 1));
    }
    assert(b.table_at(va, 0) == a.table_at(va, 0));
    if a.table_at(va, 0) is Some {
        lemma_table_at_level(a, va, 0);
        assert(b.slot(va, 0) == a.slot(va, 0));
    }
    assert forall|l: int| 0 <= l <= 2 implies b.table_at(va, l) == a.table_at(va, l) by {}
    assert forall|l: int| 0 <= l <= 2 implies b.slot(va, l) == a.slot(va, l) by {}
}

/// Writing a non-branch entry into the slot at `lvl` on the walk of `va`
/// changes the walk of exactly the addresses that share that slot.
proof fn lemma_set_slot(a: &Sv39PageTable, b: &Sv39PageTable, va: u64, lvl: int, e: u64)
    requires
        a.wf(),
        0 <= lvl <= 2,
        a.table_at(va, lvl) is Some,
        b.base_ppn == a.base_ppn,
        b.entries@.len() == a.entries@.len(),
        !pte_branch(e),
        b.entries@ == a.entries@.update(slot_index(a.table_at(va, lvl)->0, vpn(va, lvl)), e),
    ensures
        forall|va2: u64|
            #![trigger b.walk(va2)]
            b.walk(va2) == if same_path(va, va2, lvl) {
                if pte_leaf(e) {
                    Some((e, lvl))
                } else {
                    None
                }
            } else {
                a.walk(va2)
            },
{
    assert forall|va2: u64|
        #![trigger b.walk(va2)]
        b.walk(va2) == if same_path(va, va2, lvl) {
            if pte_leaf(e) {
                Some((e, lvl))
            } else {
                None
            }
        } else {
            a.walk(va2)
        } by {
        lemma_set_slot_one(a, b, va, lvl, e, va2);
    }
}

#[verifier::rlimit(40)]
proof fn lemma_set_slot_one(a: &Sv39PageTable, b: &Sv39PageTable, va: u64, lvl: int, e: u64, va2: u64)
    requires
        a.wf(),
        0 <= lvl <= 2,
        a.table_at(va, lvl) is Some,
        b.base_ppn == a.base_ppn,
        b.entries@.len() == a.entries@.len(),
        !pte_branch(e),
        b.entries@ == a.entries@.update(slot_index(a.table_at(va, lvl)->0, vpn(va, lvl)), e),
    ensures
        b.walk(va2) == if same_path(va, va2, lvl) {
            if pte_leaf(e) {
                Some((e, lvl))
            } else {
                None
            }
        } else {
            a.walk(va2)
        },
{
    let t = a.table_at(va, lvl)->0;
    let k = slot_index(t, vpn(va, lvl));
    lemma_table_at_level(a, va, lvl);
    lemma_vpn_range(va, lvl);
    if same_path(va, va2, lvl) {
        lemma_table_at_path(a, va, va2, lvl);
        lemma_table_at_path(b, va, va2, lvl);
        lemma_table_at_path(a, va, va2, 2);
        lemma_table_at_path(b, va, va2, 2);
        lemma_vpn_range(va, 2);
        lemma_vpn_range(va, 1);
        if lvl < 2 {
            lemma_table_at_path(a, va, va2, lvl + 1);
            lemma_table_at_path(b, va, va2, lvl + 1);
            lemma_table_at_level(a, va, lvl + 1);
            let t1 = a.table_at(va, lvl + 1)->0;
            assert(slot_index(t1, vpn(va, lvl + 1)) != k);
            assert(b.slot(va, lvl + 1) == a.slot(va, lvl + 1));
            if lvl < 1 {
                lemma_table_at_path(a, va, va2, lvl + 2);
                lemma_table_at_path(b, va, va2, lvl + 2);
                lemma_table_at_level(a, va, lvl + 2);
                assert(slot_index(0, vpn(va, 2)) != k);
                assert(b.slot(va, 2) == a.slot(va, 2));
            }
        }
        assert(b.slot(va2, lvl) == Some(e));
        if lvl > 0 {
            assert(b.table_at(va2, lvl - 1) is None);
            if lvl > 1 {
                assert(b.table_at(va2, lvl - 2) is None);
            }
        }
    } else if canonical(va2) {
        if reads(a, va2, k) {
            let l2 = choose|l: int|
                0 <= l <= 2 && #[trigger] a.table_at(va2, l) is Some && slot_index(
                    a.table_at(va2, l)->0,
                    vpn(va2, l),
                ) == k;
            lemma_vpn_range(va2, l2);
            lemma_table_at_unique(a, va, va2, lvl, l2);
        }
        lemma_frame(a, b, k, va2);
    }
}

/// Adding an empty table keeps the tree well formed and every walk as it was.
proof fn lemma_push_table(a: &Sv39PageTable, b: &Sv39PageTable, lv: int)
    requires
        a.wf(),
        a.num_tables() < a.capacity,
        0 <= lv <= 1,
        b.base_ppn == a.base_ppn,
        b.capacity == a.capacity,
        b.entries@.len() == a.entries@.len() + 512,
        forall|x: int| 0 <= x < a.entries@.len() ==> b.entries@[x] == a.entries@[x],
        forall|x: int| a.entries@.len() <= x < b.entries@.len() ==> b.entries@[x] == 0,
        b.level@ == a.level@.push(lv),
        b.parent@.len() == a.parent@.len() + 1,
        forall|x: int| 0 <= x < a.parent@.len() ==> b.parent@[x] == a.parent@[x],
    ensures
        b.wf(),
        b.num_tables() == a.num_tables() + 1,
        forall|i: int| 0 <= i < 512 ==> b.entry(a.num_tables(), i) == 0,
        forall|va2: u64| #[trigger] b.walk(va2) == a.walk(va2),
        forall|va2: u64, l: int| 0 <= l <= 2 ==> #[trigger] b.table_at(va2, l) == a.table_at(va2, l),
{
    let c = a.num_tables();
    lemma_zero_entry_invalid();
    assert(b.num_tables() == c + 1);
    assert forall|t2: int, i2: int|
        0 <= t2 < b.num_tables() && 0 <= i2 < 512 && pte_branch(#[trigger] b.entries@[slot_index(t2, i2)]) implies {
        let c2 = pte_ppn(b.entries@[slot_index(t2, i2)]) - b.base_ppn;
        &&& 0 < c2 < b.num_tables()
        &&& b.level@[t2] >= 1
        &&& b.level@[c2] == b.level@[t2] - 1
        &&& b.parent@[c2] == slot_index(t2, i2)
    } by {
        if t2 < c {
            assert(b.entries@[slot_index(t2, i2)] == a.entries@[slot_index(t2, i2)]);
        } else {
            assert(b.entries@[slot_index(t2, i2)] == 0);
        }
    }
    assert forall|t: int| 0 <= t < b.num_tables() implies 0 <= #[trigger] b.level@[t] <= 2 by {
        if t < c {
            assert(b.level@[t] == a.level@[t]);
        }
    }
    assert(b.wf());
    assert forall|i: int| 0 <= i < 512 implies b.entry(c, i) == 0 by {
        assert(slot_index(c, i) >= a.entries@.len());
    }
    assert forall|va2: u64| #[trigger] b.walk(va2) == a.walk(va2) by {
        lemma_frame(a, b, -1, va2);
    }
    assert forall|va2: u64, l: int| 0 <= l <= 2 implies #[trigger] b.table_at(va2, l) == a.table_at(va2, l) by {
        lemma_frame(a, b, -1, va2);
    }
}

/// Pointing the invalid slot at `l` on the walk of `va` at the empty table
/// `c` keeps the tree well formed and every walk as it was.
#[verifier::rlimit(40)]
proof fn lemma_link(b: &Sv39PageTable, f: &Sv39PageTable, va: u64, l: int, t: int, c: int)
    requires
        b.wf(),
        1 <= l <= 2,
        b.table_at(va, l) == Some(t),
        !pte_valid(b.entry(t, vpn(va, l))),
        0 < c < b.num_tables(),
        b.level@[c] == l - 1,
        b.parent@[c] == slot_index(t, vpn(va, l)),
        forall|i: int| 0 <= i < 512 ==> b.entry(c, i) == 0,
        f.base_ppn == b.base_ppn,
        f.capacity == b.capacity,
        f.level == b.level,
        f.parent == b.parent,
        f.entries@ == b.entries@.update(slot_index(t, vpn(va, l)), pte_make((b.base_ppn + c) as u64, 0)),
    ensures
        f.wf(),
        f.table_at(va, l - 1) == Some(c),
        forall|va2: u64| #[trigger] f.walk(va2) == b.walk(va2),
{
    let k = slot_index(t, vpn(va, l));
    let link = pte_make((b.base_ppn + c) as u64, 0);
    lemma_table_at_level(b, va, l);
    lemma_vpn_range(va, l);
    lemma_zero_entry_invalid();
    lemma_pte_make((b.base_ppn + c) as u64, 0);
    assert(0u64 & RWX_BITS == 0) by (bit_vector);
    assert(f.entries@[k] == link);
    assert(pte_ppn(link) - f.base_ppn == c);
    assert forall|t2: int, i2: int|
        0 <= t2 < f.num_tables() && 0 <= i2 < 512 && pte_branch(#[trigger] f.entries@[slot_index(t2, i2)]) implies {
        let c2 = pte_ppn(f.entries@[slot_index(t2, i2)]) - f.base_ppn;
        &&& 0 < c2 < f.num_tables()
        &&& f.level@[t2] >= 1
        &&& f.level@[c2] == f.level@[t2] - 1
        &&& f.parent@[c2] == slot_index(t2, i2)
    } by {
        if slot_index(t2, i2) != k {
            assert(f.entries@[slot_index(t2, i2)] == b.entries@[slot_index(t2, i2)]);
        } else {
            assert(t2 == t && i2 == vpn(va, l));
        }
    }
    assert(f.wf());
    assert(f.table_at(va, l) == Some(t)) by {
        if l < 2 {
            lemma_table_at_level(b, va, 2);
            lemma_vpn_range(va, 2);
            assert(slot_index(0, vpn(va, 2)) != k);
            assert(f.entries@[slot_index(0, vpn(va, 2))] == b.entries@[slot_index(0, vpn(va, 2))]);
            assert(f.slot(va, 2) == b.slot(va, 2));
        }
    }
    assert(f.table_at(va, l - 1) == Some(c));
    assert forall|va2: u64| #[trigger] f.walk(va2) == b.walk(va2) by {
        if reads(b, va2, k) {
            let l2 = choose|x: int|
                0 <= x <= 2 && #[trigger] b.table_at(va2, x) is Some && slot_index(b.table_at(va2, x)->0, vpn(va2, x))
                    == k;
            lemma_vpn_range(va2, l2);
            lemma_table_at_unique(b, va, va2, l, l2);
            lemma_table_at_path(b, va, va2, l);
            lemma_table_at_path(f, va, va2, l);
            assert(b.slot(va2, l) == Some(b.entry(t, vpn(va, l))));
            assert(f.slot(va2, l) == Some(link));
            lemma_vpn_range(va2, l - 1);
            assert(t != c);
            assert(slot_index(c, vpn(va2, l - 1)) != k);
            assert(b.entry(c, vpn(va2, l - 1)) == 0);
            assert(f.entries@[slot_index(c, vpn(va2, l - 1))] == b.entries@[slot_index(c, vpn(va2, l - 1))]);
            assert(f.entry(c, vpn(va2, l - 1)) == 0);
            if l == 2 {
                assert(f.table_at(va2, 1) == Some(c));
                assert(f.slot(va2, 1) == Some(0u64));
                assert(f.table_at(va2, 0) is None);
                assert(b.table_at(va2, 1) is None);
                assert(b.table_at(va2, 0) is None);
            } else {
                lemma_table_at_path(b, va, va2, 2);
                lemma_table_at_path(f, va, va2, 2);
                lemma_table_at_level(b, va, 2);
                lemma_vpn_range(va, 2);
                assert(slot_index(0, vpn(va, 2)) != k);
                assert(f.entries@[slot_index(0, vpn(va, 2))] == b.entries@[slot_index(0, vpn(va, 2))]);
                assert(f.slot(va2, 2) == b.slot(va2, 2));
                assert(f.table_at(va2, 0) == Some(c));
                assert(f.slot(va2, 0) == Some(0u64));
                assert(b.table_at(va2, 0) is None);
            }
        } else {
            lemma_frame(b, f, k, va2);
        }
    }
}

/// Replacing a leaf by a non-branch entry leaves every walk reading the same
/// tables.
proof fn lemma_clear_keeps_tables(a: &Sv39PageTable, b: &Sv39PageTable, va: u64, lvl: int, e: u64, va2: u64, l: int)
    requires
        a.wf(),
        0 <= lvl <= 2,
        0 <= l <= 2,
        a.table_at(va, lvl) is Some,
        pte_leaf(a.slot(va, lvl)->0),
        b.base_ppn == a.base_ppn,
        b.entries@.len() == a.entries@.len(),
        !pte_branch(e),
        b.entries@ == a.entries@.update(slot_index(a.table_at(va, lvl)->0, vpn(va, lvl)), e),
    ensures
        b.table_at(va2, l) == a.table_at(va2, l),
{
    let t = a.table_at(va, lvl)->0;
    let k = slot_index(t, vpn(va, lvl));
    lemma_table_at_level(a, va, lvl);
    lemma_vpn_range(va, lvl);
    if reads(a, va2, k) {
        let l2 = choose|x: int|
            0 <= x <= 2 && #[trigger] a.table_at(va2, x) is Some && slot_index(a.table_at(va2, x)->0, vpn(va2, x)) == k;
        lemma_vpn_range(va2, l2);
        lemma_table_at_level(a, va2, l2);
        lemma_table_at_unique(a, va, va2, lvl, l2);
        lemma_table_at_path(a, va, va2, lvl);
        lemma_table_at_path(b, va, va2, lvl);
        lemma_table_at_path(a, va, va2, 2);
        lemma_table_at_path(b, va, va2, 2);
        lemma_vpn_range(va, 2);
        if lvl < 2 {
            lemma_table_at_path(a, va, va2, lvl + 1);
            lemma_table_at_path(b, va, va2, lvl + 1);
            lemma_table_at_level(a, va, lvl + 1);
            let t1 = a.table_at(va, lvl + 1)->0;
            lemma_vpn_range(va, lvl + 1);
            assert(slot_index(t1, vpn(va, lvl + 1)) != k);
            assert(b.entries@[slot_index(t1, vpn(va, lvl + 1))] == a.entries@[slot_index(t1, vpn(va, lvl + 1))]);
            assert(b.slot(va, lvl + 1) == a.slot(va, lvl + 1));
            if lvl < 1 {
                lemma_table_at_level(a, va, 2);
                assert(slot_index(0, vpn(va, 2)) != k);
                assert(b.entries@[slot_index(0, vpn(va, 2))] == a.entries@[slot_index(0, vpn(va, 2))]);
                assert(b.slot(va, 2) == a.slot(va, 2));
            }
        }
        assert(b.table_at(va2, lvl) == a.table_at(va2, lvl));
        assert(a.slot(va2, lvl) == a.slot(va, lvl));
        assert(b.slot(va2, lvl) == Some(e));
        if lvl >= 1 {
            assert(a.table_at(va2, lvl - 1) is None);
            assert(b.table_at(va2, lvl - 1) is None);
        }
        if lvl >= 2 {
            assert(a.table_at(va2, 0) is None);
            assert(b.table_at(va2, 0) is None);
        }
    } else {
        lemma_frame(a, b, k, va2);
    }
}

impl Sv39PageTable {
    /// An empty root table in the first of `capacity` frames from `base` on.
    pub fn new(base: PhysicalAddress, capacity: usize) -> (r: Result<Self, KError>)
        ensures
            r is Ok <==> (base.0 % 4096 == 0 && 1 <= capacity && base.0 / 4096 + capacity <= PPN_MASK + 1 && 512
                * capacity <= usize::MAX),
            r is Err ==> r == Err::<Self, KError>(KError::InvalidArgument),
            r is Ok ==> {
                let pt = r->Ok_0;
                &&& pt.wf()
                &&& pt.num_tables() == 1
                &&& pt.base_ppn_spec() == base.0 / 4096
                &&& pt.capacity_spec() == capacity
                &&& forall|va: u64| #[trigger] pt.translate_spec(va) is None
                &&& forall|va: u64| #[trigger] pt.slot(va, 2) is Some && !pte_valid(pt.slot(va, 2)->0)
            },
    {
        if base.0 % 4096 != 0 || capacity < 1 || capacity > usize::MAX / 512 {
            return Err(KError::InvalidArgument);
        }
        let base_ppn = base.0 / 4096;
        if base_ppn > PPN_MASK || capacity as u64 > (PPN_MASK + 1) - base_ppn {
            return Err(KError::InvalidArgument);
        }
        let mut entries: Vec<u64> = Vec::new();
        let mut i: usize = 0;
        while i < 512
            invariant
                i <= 512,
                entries@.len() == i,
                forall|j: int| 0 <= j < i ==> entries@[j] == 0,
            decreases 512 - i,
        {
            entries.push(0);
            i = i + 1;
        }
        let ghost levels: Seq<int> = seq![2int];
        let ghost parents: Seq<int> = seq![-1int];
        let pt = Sv39PageTable { base_ppn, capacity, entries, level: Ghost(levels), parent: Ghost(parents) };
        proof {
            lemma_zero_entry_invalid();
            assert(pt.num_tables() == 1);
            assert forall|t: int, i: int|
                0 <= t < 1 && 0 <= i < 512 implies !pte_valid(#[trigger] pt.entries@[slot_index(t, i)]) by {}
            assert forall|va: u64| #[trigger] pt.slot(va, 2) is Some && !pte_valid(pt.slot(va, 2)->0) by {
                lemma_vpn_range(va, 2);
                assert(pt.slot(va, 2) == Some(0u64));
            }
            assert forall|va: u64| #[trigger] pt.translate_spec(va) is None by {
                lemma_vpn_range(va, 2);
                assert(pt.slot(va, 2) == Some(0u64));
                assert(pt.table_at(va, 1) is None);
                assert(pt.table_at(va, 0) is None);
            }
        }
        Ok(pt)
    }

    pub fn num_tables_exec(&self) -> (r: usize)
        requires
            self.wf(),
        ensures
            r == self.num_tables(),
    {
        self.entries.len() / 512
    }

    /// Entry `i` of table `t`, or the invalid entry where there is no such
    /// table.
    pub fn entry_at(&self, t: usize, i: usize) -> (r: Sv39PageTableEntry)
        requires
            self.wf(),
        ensures
            t < self.num_tables() && i < 512 ==> r.0 == self.entry(t as int, i as int),
            !(t < self.num_tables() && i < 512) ==> r.0 == 0,
    {
        if t < self.entries.len() / 512 && i < 512 {
            Sv39PageTableEntry(self.entries[t * 512 + i])
        } else {
            Sv39PageTableEntry(0)
        }
    }

    /// The physical address of the root table.
    pub fn root_address(&self) -> (r: PhysicalAddress)
        requires
            self.wf(),
        ensures
            r.0 == self.base_ppn_spec() * 4096,
    {
        self.table_address(0)
    }

    /// The physical address of table `t`.
    pub fn table_address(&self, t: usize) -> (r: PhysicalAddress)
        requires
            self.wf(),
            t < self.num_tables(),
        ensures
            r.0 == (self.base_ppn_spec() + t) * 4096,
    {
        PhysicalAddress((self.base_ppn + t as u64) * 4096)
    }

    /// The physical address that `va` translates to, offset within the page
    /// included; none where some level of the walk is invalid.
    pub fn translate(&self, va: VirtualAddress) -> (r: Option<PhysicalAddress>)
        requires
            self.wf(),
        ensures
            r is Some <==> self.translate_spec(va.0) is Some,
            r is Some ==> r->0 == PhysicalAddress(self.translate_spec(va.0)->0 as u64),
    {
        let v = va.0;
        if !is_canonical(v) {
            return None;
        }
        let mut t: usize = 0;
        let mut l: usize = 2;
        loop
            invariant
                self.wf(),
                v == va.0,
                canonical(v),
                l <= 2,
                self.table_at(v, l as int) == Some(t as int),
                t < self.num_tables(),
                l < 2 ==> !self.slot_leaf(v, 2),
                l < 1 ==> !self.slot_leaf(v, 1),
            decreases l,
        {
            let i = vpn_index(v, l);
            let e = Sv39PageTableEntry(self.entries[t * 512 + i]);
            assert(e.0 == self.entry(t as int, i as int));
            assert(self.slot(v, l as int) == Some(e.0));
            if !e.is_valid() {
                proof {
                    if l >= 1 {
                        assert(self.table_at(v, l - 1) is None);
                    }
                    if l >= 2 {
                        assert(self.table_at(v, 0) is None);
                    }
                }
                assert(self.walk(v) is None);
                return None;
            }
            if e.is_leaf() {
                let bytes: u64 = if l == 2 {
                    0x4000_0000
                } else if l == 1 {
                    0x20_0000
                } else {
                    0x1000
                };
                let ppn = e.ppn();
                assert(bytes == level_bytes(l as int));
                assert(v % bytes < bytes);
                assert(ppn * 4096 + v % bytes <= u64::MAX) by (nonlinear_arith)
                    requires
                        ppn <= PPN_MASK,
                        v % bytes < bytes,
                        bytes <= 0x4000_0000,
                ;
                assert(self.walk(v) == Some((e.0, l as int)));
                assert(self.translate_spec(v) == Some(ppn * 4096 + v % bytes));
                return Some(PhysicalAddress(ppn * 4096 + v % bytes));
            }
            if l == 0 {
                assert(self.walk(v) is None);
                return None;
            }
            proof {
                lemma_table_at_level(self, v, l as int);
            }
            t = (e.ppn() - self.base_ppn) as usize;
            l = l - 1;
        }
    }

    /// Whether `va` translates at all.
    pub fn is_mapped(&self, va: VirtualAddress) -> (r: bool)
        requires
            self.wf(),
        ensures
            r == self.translate_spec(va.0) is Some,
    {
        self.translate(va).is_some()
    }

    /// Whether mapping at `lvl` for `va` collides, and otherwise how many
    /// tables it needs.
    fn probe(&self, va: u64, lvl: usize) -> (r: Option<usize>)
        requires
            self.wf(),
            lvl <= 2,
        ensures
            r is None <==> self.collides(va, lvl as int),
            r is Some ==> r->0 == self.tables_needed(va, lvl as int),
    {
        let mut t: usize = 0;
        let mut l: usize = 2;
        while l > lvl
            invariant
                self.wf(),
                lvl <= l <= 2,
                self.table_at(va, l as int) == Some(t as int),
                t < self.num_tables(),
                l < 2 ==> !self.slot_leaf(va, 2),
                l < 1 ==> !self.slot_leaf(va, 1),
            decreases l,
        {
            let i = vpn_index(va, l);
            let e = Sv39PageTableEntry(self.entries[t * 512 + i]);
            assert(e.0 == self.entry(t as int, i as int));
            assert(self.slot(va, l as int) == Some(e.0));
            if e.is_leaf() {
                return None;
            }
            if !e.is_valid() {
                proof {
                    assert(self.table_at(va, l - 1) is None);
                    if l >= 2 {
                        assert(self.table_at(va, 0) is None);
                    }
                }
                return Some(l - lvl);
            }
            proof {
                lemma_table_at_level(self, va, l as int);
            }
            t = (e.ppn() - self.base_ppn) as usize;
            l = l - 1;
        }
        let i = vpn_index(va, lvl);
        let e = Sv39PageTableEntry(self.entries[t * 512 + i]);
        assert(e.0 == self.entry(t as int, i as int));
        if e.is_valid() {
            None
        } else {
            Some(0)
        }
    }

    /// Steps from table `t` at `l` to the table below on the walk of `va`,
    /// adding and linking an empty table where the slot is invalid.
    fn descend(&mut self, va: u64, t: usize, l: usize) -> (r: usize)
        requires
            old(self).wf(),
            1 <= l <= 2,
            old(self).table_at(va, l as int) == Some(t as int),
            !pte_leaf(old(self).entry(t as int, vpn(va, l as int))),
            !pte_valid(old(self).entry(t as int, vpn(va, l as int))) ==> old(self).num_tables()
                < old(self).capacity_spec(),
        ensures
            final(self).wf(),
            final(self).base_ppn == old(self).base_ppn,
            final(self).capacity == old(self).capacity,
            final(self).table_at(va, l - 1) == Some(r as int),
            forall|va2: u64| #[trigger] final(self).walk(va2) == old(self).walk(va2),
            pte_valid(old(self).entry(t as int, vpn(va, l as int))) ==> *final(self) == *old(self),
            !pte_valid(old(self).entry(t as int, vpn(va, l as int))) ==> {
                &&& final(self).num_tables() == old(self).num_tables() + 1
                &&& forall|i: int| 0 <= i < 512 ==> final(self).entry(r as int, i) == 0
            },
    {
        proof {
            lemma_table_at_level(self, va, l as int);
        }
        let i = vpn_index(va, l);
        let k = t * 512 + i;
        let e = Sv39PageTableEntry(self.entries[k]);
        assert(e.0 == old(self).entry(t as int, i as int));
        if e.is_valid() {
            return (e.ppn() - self.base_ppn) as usize;
        }
        let ghost a = *self;
        // a fresh zeroed table, owned by slot `k`
        let c = self.entries.len() / 512;
        let mut j: usize = 0;
        while j < 512
            invariant
                a.wf(),
                self.base_ppn == a.base_ppn,
                self.capacity == a.capacity,
                self.level == a.level,
                self.parent == a.parent,
                c == a.num_tables(),
                c < a.capacity,
                j <= 512,
                self.entries@.len() == a.entries@.len() + j,
                forall|x: int| 0 <= x < a.entries@.len() ==> self.entries@[x] == a.entries@[x],
                forall|x: int| a.entries@.len() <= x < self.entries@.len() ==> self.entries@[x] == 0,
            decreases 512 - j,
        {
            self.entries.push(0);
            j = j + 1;
        }
        self.level = Ghost(self.level@.push(l - 1));
        self.parent = Ghost(self.parent@.push(k as int));
        proof {
            lemma_push_table(&a, self, (l - 1) as int);
        }
        let ghost b = *self;
        let link = Sv39PageTableEntry::branch(PhysicalAddress((self.base_ppn + c as u64) * 4096));
        self.entries.set(k, link.0);
        proof {
            lemma_link(&b, self, va, l as int, t as int, c as int);
        }
        c
    }

    /// Installs a leaf mapping the page of `size` at `map_from` to
    /// `map_to`, adding the tables that the walk lacks.
    pub fn map(&mut self, map_from: PhysicalAddress, map_to: VirtualAddress, size: PageSize, perms: Permissions) -> (r:
        Result<(), KError>)
        requires
            old(self).wf(),
        ensures
            final(self).wf(),
            final(self).base_ppn_spec() == old(self).base_ppn_spec(),
            final(self).capacity_spec() == old(self).capacity_spec(),
            r == map_result(*old(self), map_from.0, map_to.0, size, perms),
            r is Err ==> *final(self) == *old(self),
            r is Ok ==> final(self).num_tables() == old(self).num_tables() + old(self).tables_needed(
                map_to.0,
                size.level(),
            ),
            r is Ok ==> maps_page(*old(self), *final(self), map_from.0, map_to.0, size, perms),
    {
        let phys = map_from.0;
        let virt = map_to.0;
        let bytes = size.to_byte_size() as u64;
        let lvl: usize = match size {
            PageSize::Kilopage => 0,
            PageSize::Megapage => 1,
            PageSize::Gigapage => 2,
        };
        if !perms.is_valid() || phys % bytes != 0 || virt % bytes != 0 || !is_canonical(virt) || phys / 4096
            > PPN_MASK {
            return Err(KError::InvalidArgument);
        }
        let needed = match self.probe(virt, lvl) {
            None => {
                return Err(KError::InvalidMapping);
            },
            Some(n) => n,
        };
        if needed > self.capacity - self.entries.len() / 512 {
            return Err(KError::OutOfMemory);
        }
        let ghost a = *self;
        let mut t: usize = 0;
        proof {
            lemma_table_at_level(self, virt, 2);
        }
        if lvl < 2 {
            proof {
                lemma_vpn_range(virt, 2);
            }
            t = self.descend(virt, 0, 2);
        }
        let ghost mid = *self;
        if lvl < 1 {
            proof {
                lemma_vpn_range(virt, 1);
                lemma_vpn_range(virt, 2);
                lemma_zero_entry_invalid();
                if pte_valid(a.entry(0, vpn(virt, 2))) {
                    assert(mid == a);
                    assert(a.slot(virt, 1) == Some(a.entry(t as int, vpn(virt, 1))));
                } else {
                    assert(mid.entry(t as int, vpn(virt, 1)) == 0);
                }
            }
            t = self.descend(virt, t, 1);
        }
        let ghost b = *self;
        proof {
            lemma_table_at_level(self, virt, lvl as int);
        }
        let i = vpn_index(virt, lvl);
        let leaf = Sv39PageTableEntry::leaf(map_from, perms);
        self.entries.set(t * 512 + i, leaf.0);
        proof {
            let f = *self;
            assert(f.entries@ == b.entries@.update(slot_index(t as int, vpn(virt, lvl as int)), leaf.0));
            lemma_set_slot(&b, &f, virt, lvl as int, leaf.0);
            assert(f.wf()) by {
                assert forall|t2: int, i2: int|
                    0 <= t2 < f.num_tables() && 0 <= i2 < 512 && pte_branch(
                        #[trigger] f.entries@[slot_index(t2, i2)],
                    ) implies {
                    let c2 = pte_ppn(f.entries@[slot_index(t2, i2)]) - f.base_ppn;
                    &&& 0 < c2 < f.num_tables()
                    &&& f.level@[t2] >= 1
                    &&& f.level@[c2] == f.level@[t2] - 1
                    &&& f.parent@[c2] == slot_index(t2, i2)
                } by {
                    assert(f.entries@[slot_index(t2, i2)] == b.entries@[slot_index(t2, i2)]);
                }
            }
            lemma_mod_mod(phys as int, 4096, size.bytes_spec() / 4096);
            lemma_fundamental_div_mod(phys as int, 4096);
            assert(pte_ppn(leaf.0) * 4096 == phys);
            assert forall|va: u64|
                #![trigger f.translate_spec(va)]
                f.translate_spec(va) == if same_path(virt, va, lvl as int) {
                    Some(phys + va as int % size.bytes_spec())
                } else {
                    a.translate_spec(va)
                } by {
                assert(f.walk(va) == if same_path(virt, va, lvl as int) {
                    Some((leaf.0, lvl as int))
                } else {
                    b.walk(va)
                });
                assert(b.walk(va) == mid.walk(va));
                assert(mid.walk(va) == a.walk(va));
            }
            assert forall|va: u64| !same_path(virt, va, lvl as int) implies #[trigger] f.walk(va) == a.walk(va) by {
                assert(f.walk(va) == b.walk(va));
                assert(b.walk(va) == mid.walk(va));
                assert(mid.walk(va) == a.walk(va));
            }
            assert(same_path(virt, virt, lvl as int));
            assert(f.walk(virt) == Some((leaf.0, lvl as int)));
        }
        Ok(())
    }

    /// Clears the valid bit of the leaf that maps `va`.
    ///
    /// The tables on the way stay: their frames may not come from an
    /// allocator that could take them back.
    pub fn unmap(&mut self, va: VirtualAddress) -> (r: Result<(), KError>)
        requires
            old(self).wf(),
        ensures
            final(self).wf(),
            final(self).base_ppn_spec() == old(self).base_ppn_spec(),
            final(self).capacity_spec() == old(self).capacity_spec(),
            final(self).num_tables() == old(self).num_tables(),
            r is Ok <==> old(self).walk(va.0) is Some,
            r is Err ==> r == Err::<(), KError>(KError::InvalidMapping) && *final(self) == *old(self),
            r is Ok ==> unmaps_page(*old(self), *final(self), va.0),
    {
        let v = va.0;
        if !is_canonical(v) {
            return Err(KError::InvalidMapping);
        }
        let mut t: usize = 0;
        let mut l: usize = 2;
        loop
            invariant
                self.wf(),
                *self == *old(self),
                canonical(v),
                v == va.0,
                l <= 2,
                self.table_at(v, l as int) == Some(t as int),
                t < self.num_tables(),
                l < 2 ==> !self.slot_leaf(v, 2),
                l < 1 ==> !self.slot_leaf(v, 1),
            decreases l,
        {
            let i = vpn_index(v, l);
            let e = Sv39PageTableEntry(self.entries[t * 512 + i]);
            assert(e.0 == self.entry(t as int, i as int));
            assert(self.slot(v, l as int) == Some(e.0));
            if !e.is_valid() {
                proof {
                    if l >= 1 {
                        assert(self.table_at(v, l - 1) is None);
                    }
                    if l >= 2 {
                        assert(self.table_at(v, 0) is None);
                    }
                }
                assert(self.walk(v) is None);
                return Err(KError::InvalidMapping);
            }
            if e.is_leaf() {
                assert(self.walk(v) == Some((e.0, l as int)));
                let ghost a = *self;
                let cleared = e.invalidated();
                self.entries.set(t * 512 + i, cleared.0);
                proof {
                    let f = *self;
                    assert(f.entries@ == a.entries@.update(slot_index(t as int, vpn(v, l as int)), cleared.0));
                    lemma_set_slot(&a, &f, v, l as int, cleared.0);
                    assert(f.wf()) by {
                        assert forall|t2: int, i2: int|
                            0 <= t2 < f.num_tables() && 0 <= i2 < 512 && pte_branch(
                                #[trigger] f.entries@[slot_index(t2, i2)],
                            ) implies {
                            let c2 = pte_ppn(f.entries@[slot_index(t2, i2)]) - f.base_ppn;
                            &&& 0 < c2 < f.num_tables()
                            &&& f.level@[t2] >= 1
                            &&& f.level@[c2] == f.level@[t2] - 1
                            &&& f.parent@[c2] == slot_index(t2, i2)
                        } by {
                            assert(f.entries@[slot_index(t2, i2)] == a.entries@[slot_index(t2, i2)]);
                        }
                    }
                    assert forall|va2: u64|
                        #![trigger f.translate_spec(va2)]
                        f.translate_spec(va2) == if same_path(v, va2, l as int) {
                            None
                        } else {
                            a.translate_spec(va2)
                        } by {
                        assert(f.walk(va2) == if same_path(v, va2, l as int) {
                            None
                        } else {
                            a.walk(va2)
                        });
                    }
                    lemma_table_at_level(&a, v, l as int);
                    lemma_vpn_range(v, 2);
                    lemma_vpn_range(v, 1);
                    lemma_vpn_range(v, l as int);
                    if l < 2 {
                        lemma_table_at_level(&a, v, 2);
                        assert(slot_index(0, vpn(v, 2)) != slot_index(t as int, vpn(v, l as int)));
                        assert(f.slot(v, 2) == a.slot(v, 2));
                        if l < 1 {
                            lemma_table_at_level(&a, v, 1);
                            let t1 = a.table_at(v, 1)->0;
                            assert(slot_index(t1, vpn(v, 1)) != slot_index(t as int, vpn(v, l as int)));
                            assert(f.slot(v, 1) == a.slot(v, 1));
                        }
                    }
                    assert(f.table_at(v, l as int) == a.table_at(v, l as int));
                    assert(f.slot(v, l as int) == Some(cleared.0));
                    assert forall|va2: u64, l2: int| 0 <= l2 <= 2 implies #[trigger] f.table_at(va2, l2) == a.table_at(
                        va2,
                        l2,
                    ) by {
                        lemma_clear_keeps_tables(&a, &f, v, l as int, cleared.0, va2, l2);
                    }
                    if l >= 1 {
                        assert(f.table_at(v, l - 1) is None);
                        assert(a.table_at(v, l - 1) is None);
                    }
                    if l >= 2 {
                        assert(f.table_at(v, 0) is None);
                        assert(a.table_at(v, 0) is None);
                    }
                    assert(a.leaf_level(v) == l);
                }
                return Ok(());
            }
            if l == 0 {
                assert(self.walk(v) is None);
                return Err(KError::InvalidMapping);
            }
            proof {
                lemma_table_at_level(self, v, l as int);
            }
            t = (e.ppn() - self.base_ppn) as usize;
            l = l - 1;
        }
    }
}

/// For a canonical address, a 4 KiB mapping collides exactly where the
/// address already translates.
pub proof fn lemma_collides_iff_mapped(pt: Sv39PageTable, va: u64)
    requires
        pt.wf(),
        canonical(va),
    ensures
        pt.collides(va, 0) <==> pt.translate_spec(va) is Some,
{
    if pt.table_at(va, 0) is Some {
        lemma_table_at_level(&pt, va, 0);
        lemma_vpn_range(va, 0);
        let t = pt.table_at(va, 0)->0;
        assert(pt.entries@[slot_index(t, vpn(va, 0))] == pt.entry(t, vpn(va, 0)));
    }
}

// ---------------------------------------------------------------------------
// Laws of map, unmap and translate

/// Every byte of a 4 KiB page mapped at `virt` translates to the same byte
/// of the frame at `phys`: `translate(virt + k) == phys + k` for
/// `0 <= k < 4096`, and so `translate(virt) == phys + virt % 4096`.
pub proof fn lemma_map_translates_page(
    before: Sv39PageTable,
    after: Sv39PageTable,
    phys: u64,
    virt: u64,
    perms: Permissions,
    k: u64,
)
    requires
        maps_page(before, after, phys, virt, PageSize::Kilopage, perms),
        canonical(virt),
        virt % 4096 == 0,
        k < 4096,
    ensures
        virt + k <= u64::MAX,
        after.translate_spec(virt) == Some(phys + virt % 4096),
        after.translate_spec((virt + k) as u64) == Some(phys + virt % 4096 + k),
{
    let v2 = (virt + k) as u64;
    let q = virt as int / 4096;
    lemma_fundamental_div_mod(virt as int, 4096);
    lemma_fundamental_div_mod_converse(v2 as int, 4096, q, k as int);
    lemma_div_denominator(virt as int, 4096, 512);
    lemma_div_denominator(v2 as int, 4096, 512);
    lemma_div_denominator(virt as int, 4096, 262144);
    lemma_div_denominator(v2 as int, 4096, 262144);
    assert(same_path(virt, v2, 0));
    assert(same_path(virt, virt, 0));
}

/// After the leaf that maps `va` is cleared, `va` translates to nothing.
pub proof fn lemma_unmap_translates_none(before: Sv39PageTable, after: Sv39PageTable, va: u64)
    requires
        before.walk(va) is Some,
        unmaps_page(before, after, va),
    ensures
        after.translate_spec(va) is None,
{
    assert(same_path(va, va, before.leaf_level(va)));
}

/// Map a 4 KiB page at `virt`, clear it, and the slot is free again: a
/// second mapping of `virt` meets no collision and needs no new table, and
/// once made, `virt` translates to the new frame.
pub proof fn lemma_map_unmap_map(
    s0: Sv39PageTable,
    s1: Sv39PageTable,
    s2: Sv39PageTable,
    s3: Sv39PageTable,
    old_phys: u64,
    new_phys: u64,
    virt: u64,
    old_perms: Permissions,
    new_perms: Permissions,
)
    requires
        maps_page(s0, s1, old_phys, virt, PageSize::Kilopage, old_perms),
        unmaps_page(s1, s2, virt),
        maps_page(s2, s3, new_phys, virt, PageSize::Kilopage, new_perms),
        canonical(virt),
        virt % 4096 == 0,
        new_phys % 4096 == 0,
    ensures
        !s2.collides(virt, 0),
        s2.tables_needed(virt, 0) == 0,
        s3.translate_spec(virt) == Some(new_phys as int),
{
    assert(s1.leaf_level(virt) == 0);
    assert(s1.slot(virt, 2) == s2.slot(virt, 2));
    assert(s1.slot(virt, 1) == s2.slot(virt, 1));
    assert(!s1.slot_leaf(virt, 2));
    assert(!s1.slot_leaf(virt, 1));
    assert(s2.table_at(virt, 0) == s1.table_at(virt, 0));
    assert(same_path(virt, virt, 0));
}

} // verus!
