use vstd::prelude::*;

use crate::error::KError;

verus! {

/// Bytes of the in-band header in front of every block.
pub const HEADER_SIZE: usize = 16;

/// Least payload that a split must leave to the tail block.
pub const MIN_TAIL: usize = 8;

/// The header of a block: its address, which is also the block's address,
/// and the payload bytes that follow the header.
#[derive(Debug, Clone, Copy, PartialEq, Eq, Structural)]
pub struct FreeListNode {
    pub addr: usize,
    pub size: usize,
}

/// `n` rounded up to a multiple of the machine word.
pub open spec fn round_up_word(n: int) -> int {
    (n + 7) / 8 * 8
}

/// The payload of a block starts right after its header.
pub open spec fn payload(node: FreeListNode) -> int {
    node.addr + HEADER_SIZE
}

/// `i` is the first node of `nodes` with room for `req` bytes.
pub open spec fn is_first_fit(nodes: Seq<FreeListNode>, req: int, i: int) -> bool {
    &&& 0 <= i < nodes.len()
    &&& nodes[i].size >= req
    &&& forall|j: int| 0 <= j < i ==> #[trigger] nodes[j].size < req
}

pub open spec fn has_fit(nodes: Seq<FreeListNode>, req: int) -> bool {
    exists|i: int| 0 <= i < nodes.len() && #[trigger] nodes[i].size >= req
}

pub open spec fn first_fit(nodes: Seq<FreeListNode>, req: int) -> int {
    choose|i: int| is_first_fit(nodes, req, i)
}

/// A node large enough for `req`, a header and the least tail is split.
pub open spec fn splits(node: FreeListNode, req: int) -> bool {
    node.size >= req + HEADER_SIZE + MIN_TAIL
}

/// The free list, the blocks handed out, and the result of allocating
/// `size` bytes aligned to `align`.
pub open spec fn alloc_step(free: Seq<FreeListNode>, used: Seq<FreeListNode>, size: int, align: int) -> (
    Seq<FreeListNode>,
    Seq<FreeListNode>,
    Result<usize, KError>,
) {
    let req = round_up_word(size);
    if align > 8 {
        (free, used, Err(KError::InvalidArgument))
    } else if !has_fit(free, req) {
        (free, used, Err(KError::OutOfMemory))
    } else {
        let i = first_fit(free, req);
        let node = free[i];
        if splits(node, req) {
            let tail = FreeListNode {
                addr: (node.addr + HEADER_SIZE + req) as usize,
                size: (node.size - req - HEADER_SIZE) as usize,
            };
            (free.update(i, tail), used.push(FreeListNode { addr: node.addr, size: req as usize }), Ok(
                payload(node) as usize,
            ))
        } else {
            (free.remove(i), used.push(node), Ok(payload(node) as usize))
        }
    }
}

/// The last block handed out whose payload starts at `ptr`.
pub open spec fn is_last_block_at(used: Seq<FreeListNode>, ptr: int, j: int) -> bool {
    &&& 0 <= j < used.len()
    &&& payload(used[j]) == ptr
    &&& forall|k: int| j < k < used.len() ==> payload(#[trigger] used[k]) != ptr
}

pub open spec fn has_block_at(used: Seq<FreeListNode>, ptr: int) -> bool {
    exists|j: int| 0 <= j < used.len() && payload(#[trigger] used[j]) == ptr
}

/// The free list, the blocks handed out, and the result of giving back the
/// block whose payload starts at `ptr`: its header goes to the head of the
/// list, with no coalescing.
pub open spec fn dealloc_step(free: Seq<FreeListNode>, used: Seq<FreeListNode>, ptr: int) -> (
    Seq<FreeListNode>,
    Seq<FreeListNode>,
    Result<(), KError>,
) {
    if !has_block_at(used, ptr) {
        (free, used, Err(KError::InvalidArgument))
    } else {
        let j = choose|j: int| is_last_block_at(used, ptr, j);
        (seq![used[j]].add(free), used.remove(j), Ok(()))
    }
}

/// One past the last byte of a block, header included.
pub open spec fn block_end(node: FreeListNode) -> int {
    node.addr + HEADER_SIZE + node.size
}

pub open spec fn blocks_apart(a: FreeListNode, b: FreeListNode) -> bool {
    block_end(a) <= b.addr || block_end(b) <= a.addr
}

/// No two of the blocks, free or handed out, share a byte.
pub open spec fn blocks_disjoint(blocks: Seq<FreeListNode>) -> bool {
    forall|i: int, j: int|
        0 <= i < blocks.len() && 0 <= j < blocks.len() && i != j ==> blocks_apart(
            #[trigger] blocks[i],
            #[trigger] blocks[j],
        )
}

/// Blocks that each lie inside a block of `old` (block `j` inside `old[m(j)]`),
/// and that are apart wherever two of them lie in the same one, are disjoint
/// when `old` is.
proof fn lemma_disjoint_from(old: Seq<FreeListNode>, new: Seq<FreeListNode>, m: spec_fn(int) -> int)
    requires
        blocks_disjoint(old),
        forall|j: int|
            0 <= j < new.len() ==> 0 <= #[trigger] m(j) < old.len() && old[m(j)].addr <= new[j].addr && block_end(
                new[j],
            ) <= block_end(old[m(j)]),
        forall|i: int, j: int|
            0 <= i < new.len() && 0 <= j < new.len() && i != j && #[trigger] m(i) == #[trigger] m(j) ==> blocks_apart(
                new[i],
                new[j],
            ),
    ensures
        blocks_disjoint(new),
{
    assert forall|i: int, j: int|
        0 <= i < new.len() && 0 <= j < new.len() && i != j implies blocks_apart(
        #[trigger] new[i],
        #[trigger] new[j],
    ) by {
        if m(i) != m(j) {
            assert(blocks_apart(old[m(i)], old[m(j)]));
        }
    }
}

pub open spec fn node_in(node: FreeListNode, origin: int, end: int) -> bool {
    &&& origin <= node.addr
    &&& node.addr % 8 == 0
    &&& node.addr + HEADER_SIZE + node.size <= end
}

impl FreeListNode {
    /// Bytes of a header.
    pub fn struct_size() -> (r: usize)
        ensures
            r == HEADER_SIZE,
    {
        HEADER_SIZE
    }

    /// The address of the payload.
    pub fn data(&self) -> (r: usize)
        requires
            self.addr + HEADER_SIZE <= usize::MAX,
        ensures
            r == payload(*self),
    {
        self.addr + HEADER_SIZE
    }

    /// Shrinks this block to `new_size` (rounded up to a word) and returns
    /// the header of the block formed by the rest.
    pub fn split(&mut self, new_size: usize) -> (r: FreeListNode)
        requires
            new_size <= usize::MAX - 7,
            old(self).size > new_size + HEADER_SIZE,
            old(self).size >= round_up_word(new_size as int) + HEADER_SIZE,
            old(self).addr + HEADER_SIZE + old(self).size <= usize::MAX,
        ensures
            final(self).addr == old(self).addr,
            final(self).size == round_up_word(new_size as int),
            r.addr == old(self).addr + HEADER_SIZE + round_up_word(new_size as int),
            r.size == old(self).size - round_up_word(new_size as int) - HEADER_SIZE,
    {
        let rounded = align_to_usize(new_size);
        let other_size = self.size - rounded - HEADER_SIZE;
        self.size = rounded;
        FreeListNode { addr: self.addr + HEADER_SIZE + rounded, size: other_size }
    }
}

/// `n` rounded up to a multiple of the machine word.
pub fn align_to_usize(n: usize) -> (r: usize)
    requires
        n <= usize::MAX - 7,
    ensures
        r == round_up_word(n as int),
        r % 8 == 0,
        n <= r < n + 8,
{
    (n + 7) / 8 * 8
}

/// A first-fit kernel heap over one region, kept as a list of free blocks.
///
/// Each block carries a header `{size}` in front of its payload. The free
/// list holds headers in list order, head first; the headers of blocks that
/// are handed out are kept too, as they stay in memory in front of the
/// payload that `deallocate` gets back.
pub struct FreeListAllocator {
    free: Vec<FreeListNode>,
    used: Vec<FreeListNode>,
    origin: usize,
    end: usize,
}

impl FreeListAllocator {
    pub closed spec fn free_nodes(&self) -> Seq<FreeListNode> {
        self.free@
    }

    pub closed spec fn used_nodes(&self) -> Seq<FreeListNode> {
        self.used@
    }

    pub closed spec fn origin_spec(&self) -> int {
        self.origin as int
    }

    pub closed spec fn end_spec(&self) -> int {
        self.end as int
    }

    pub closed spec fn wf(&self) -> bool {
        &&& self.origin % 8 == 0
        &&& self.origin <= self.end
        &&& forall|i: int| 0 <= i < self.free@.len() ==> node_in(#[trigger] self.free@[i], self.origin as int, self.end as int)
        &&& forall|i: int| 0 <= i < self.used@.len() ==> node_in(#[trigger] self.used@[i], self.origin as int, self.end as int)
        &&& blocks_disjoint(self.free@.add(self.used@))
    }

    /// Every block, free or handed out, lies in the region, and no two share
    /// a byte: each payload handed out has its bytes to itself.
    pub proof fn lemma_blocks(&self)
        requires
            self.wf(),
        ensures
            forall|i: int|
                0 <= i < self.free_nodes().len() ==> node_in(
                    #[trigger] self.free_nodes()[i],
                    self.origin_spec(),
                    self.end_spec(),
                ),
            forall|i: int|
                0 <= i < self.used_nodes().len() ==> node_in(
                    #[trigger] self.used_nodes()[i],
                    self.origin_spec(),
                    self.end_spec(),
                ),
            blocks_disjoint(self.free_nodes().add(self.used_nodes())),
    {
    }

    /// A heap with no region yet: every allocation fails until `init`.
    pub fn new() -> (r: Self)
        ensures
            r.wf(),
            r.free_nodes().len() == 0,
            r.used_nodes().len() == 0,
    {
        let r = FreeListAllocator { free: Vec::new(), used: Vec::new(), origin: 0, end: 0 };
        assert(r.free@.add(r.used@) =~= Seq::<FreeListNode>::empty());
        r
    }

    /// Takes the region of `size` bytes at `origin` as one free block.
    pub fn init(&mut self, origin: usize, size: usize) -> (r: Result<(), KError>)
        ensures
            r is Ok <==> (origin != 0 && origin % 8 == 0 && size >= HEADER_SIZE && origin + size <= usize::MAX),
            r is Err ==> r == Err::<(), KError>(KError::InvalidArgument) && *final(self) == *old(self),
            r is Ok ==> {
                &&& final(self).wf()
                &&& final(self).free_nodes() == seq![FreeListNode { addr: origin, size: (size - HEADER_SIZE) as usize }]
                &&& final(self).used_nodes().len() == 0
                &&& final(self).origin_spec() == origin
                &&& final(self).end_spec() == origin + size
            },
    {
        if origin == 0 || origin % 8 != 0 || size < HEADER_SIZE || origin > usize::MAX - size {
            return Err(KError::InvalidArgument);
        }
        let mut free: Vec<FreeListNode> = Vec::new();
        free.push(FreeListNode { addr: origin, size: size - HEADER_SIZE });
        self.free = free;
        self.used = Vec::new();
        self.origin = origin;
        self.end = origin + size;
        assert(self.free@.add(self.used@) =~= self.free@);
        Ok(())
    }

    /// The node at the head of the free list.
    pub fn head(&self) -> (r: Option<FreeListNode>)
        ensures
            self.free_nodes().len() == 0 ==> r is None,
            self.free_nodes().len() > 0 ==> r == Some(self.free_nodes()[0]),
    {
        if self.free.len() == 0 {
            None
        } else {
            Some(self.free[0])
        }
    }

    /// The free list, head first.
    pub fn free_list(&self) -> (r: Vec<FreeListNode>)
        ensures
            r@ == self.free_nodes(),
    {
        self.free.clone()
    }

    /// First fit: the first free block with room for `size` rounded up to a
    /// word is split when enough stays for a header and the least tail, and
    /// unlinked whole otherwise; the payload of its header is returned.
    /// Alignments above a word are not supported.
    pub fn allocate(&mut self, size: usize, align: usize) -> (r: Result<usize, KError>)
        requires
            old(self).wf(),
        ensures
            final(self).wf(),
            final(self).origin_spec() == old(self).origin_spec(),
            final(self).end_spec() == old(self).end_spec(),
            r is Ok ==> r->Ok_0 % 8 == 0,
            (final(self).free_nodes(), final(self).used_nodes(), r) == alloc_step(
                old(self).free_nodes(),
                old(self).used_nodes(),
                size as int,
                align as int,
            ),
    {
        if align > 8 {
            return Err(KError::InvalidArgument);
        }
        if size > usize::MAX - 7 {
            proof {
                assert forall|i: int| 0 <= i < self.free@.len() implies #[trigger] self.free@[i].size < round_up_word(
                    size as int,
                ) by {}
            }
            return Err(KError::OutOfMemory);
        }
        let req = align_to_usize(size);
        let mut i: usize = 0;
        while i < self.free.len()
            invariant
                self.wf(),
                *self == *old(self),
                align <= 8,
                req == round_up_word(size as int),
                i <= self.free@.len(),
                forall|j: int| 0 <= j < i ==> #[trigger] self.free@[j].size < req,
            decreases self.free@.len() - i,
        {
            let node = self.free[i];
            if node.size >= req {
                let ghost old_free = self.free@;
                let ghost old_used = self.used@;
                proof {
                    assert(is_first_fit(old_free, req as int, i as int));
                    assert(has_fit(old_free, req as int));
                    let k = first_fit(old_free, req as int);
                    assert(is_first_fit(old_free, req as int, k));
                    assert(k == i) by {
                        if k < i {
                            assert(old_free[k].size < req);
                        }
                        if k > i {
                            assert(old_free[i as int].size < req);
                        }
                    }
                    assert(node_in(node, self.origin as int, self.end as int));
                }
                if node.size - req >= HEADER_SIZE + MIN_TAIL {
                    let mut head = node;
                    let tail = head.split(req);
                    self.free.set(i, tail);
                    self.used.push(head);
                    proof {
                        assert(splits(node, req as int));
                        assert(tail == FreeListNode {
                            addr: (node.addr + HEADER_SIZE + req) as usize,
                            size: (node.size - req - HEADER_SIZE) as usize,
                        });
                        assert(head == FreeListNode { addr: node.addr, size: req });
                        assert(self.free@ == old_free.update(i as int, tail));
                        assert(self.used@ == old_used.push(head));
                        assert(node_in(tail, self.origin as int, self.end as int));
                        assert forall|j: int| 0 <= j < self.used@.len() implies node_in(
                            #[trigger] self.used@[j],
                            self.origin as int,
                            self.end as int,
                        ) by {
                            if j < old_used.len() {
                                assert(self.used@[j] == old_used[j]);
                            }
                        }
                    }
                    proof {
                        let old_all = old_free.add(old_used);
                        let new_all = self.free@.add(self.used@);
                        let nf = old_free.len() as int;
                        let nu = old_used.len() as int;
                        let ii = i as int;
                        let m = |j: int| if j == nf + nu { ii } else { j };
                        assert forall|j: int| 0 <= j < new_all.len() implies 0 <= #[trigger] m(j) < old_all.len()
                            && old_all[m(j)].addr <= new_all[j].addr && block_end(new_all[j]) <= block_end(
                            old_all[m(j)],
                        ) by {
                            if j < nf {
                                assert(new_all[j] == self.free@[j]);
                                assert(old_all[j] == old_free[j]);
                            } else if j < nf + nu {
                                assert(new_all[j] == old_used[j - nf]);
                                assert(old_all[j] == old_used[j - nf]);
                            } else {
                                assert(new_all[j] == head);
                                assert(old_all[ii] == node);
                            }
                        }
                        assert forall|a: int, b: int|
                            0 <= a < new_all.len() && 0 <= b < new_all.len() && a != b && #[trigger] m(a)
                                == #[trigger] m(b) implies blocks_apart(new_all[a], new_all[b]) by {
                            assert(new_all[nf + nu] == head);
                            assert(new_all[ii] == tail);
                        }
                        lemma_disjoint_from(old_all, new_all, m);
                    }
                    let p = node.addr + HEADER_SIZE;
                    proof {
                        let k = first_fit(old_free, req as int);
                        assert(old_free[k] == node);
                        assert(self.free@ == alloc_step(old_free, old_used, size as int, align as int).0);
                        assert(self.used@ == alloc_step(old_free, old_used, size as int, align as int).1);
                        assert(Ok::<usize, KError>(p) == alloc_step(old_free, old_used, size as int, align as int).2);
                    }
                    return Ok(p);
                } else {
                    self.free.remove(i);
                    self.used.push(node);
                    proof {
                        assert(!splits(node, req as int));
                        assert(self.free@ == old_free.remove(i as int));
                        assert forall|j: int| 0 <= j < self.free@.len() implies node_in(
                            #[trigger] self.free@[j],
                            self.origin as int,
                            self.end as int,
                        ) by {
                            if j < i {
                                assert(self.free@[j] == old_free[j]);
                            } else {
                                assert(self.free@[j] == old_free[j + 1]);
                            }
                        }
                        assert forall|j: int| 0 <= j < self.used@.len() implies node_in(
                            #[trigger] self.used@[j],
                            self.origin as int,
                            self.end as int,
                        ) by {
                            if j < old_used.len() {
                                assert(self.used@[j] == old_used[j]);
                            }
                        }
                    }
                    proof {
                        let old_all = old_free.add(old_used);
                        let new_all = self.free@.add(self.used@);
                        let nf = old_free.len() as int;
                        let nu = old_used.len() as int;
                        let ii = i as int;
                        let m = |j: int| if j < ii { j } else if j < nf + nu - 1 { j + 1 } else { ii };
                        assert forall|j: int| 0 <= j < new_all.len() implies 0 <= #[trigger] m(j) < old_all.len()
                            && old_all[m(j)].addr <= new_all[j].addr && block_end(new_all[j]) <= block_end(
                            old_all[m(j)],
                        ) by {
                            if j < ii {
                                assert(new_all[j] == old_free[j]);
                                assert(old_all[j] == old_free[j]);
                            } else if j < nf - 1 {
                                assert(new_all[j] == old_free[j + 1]);
                                assert(old_all[j + 1] == old_free[j + 1]);
                            } else if j < nf + nu - 1 {
                                assert(new_all[j] == old_used[j - nf + 1]);
                                assert(old_all[j + 1] == old_used[j - nf + 1]);
                            } else {
                                assert(new_all[j] == node);
                                assert(old_all[ii] == node);
                            }
                        }
                        lemma_disjoint_from(old_all, new_all, m);
                    }
                    let p = node.addr + HEADER_SIZE;
                    proof {
                        let k = first_fit(old_free, req as int);
                        assert(old_free[k] == node);
                        assert(self.free@ == alloc_step(old_free, old_used, size as int, align as int).0);
                        assert(self.used@ == alloc_step(old_free, old_used, size as int, align as int).1);
                        assert(Ok::<usize, KError>(p) == alloc_step(old_free, old_used, size as int, align as int).2);
                    }
                    return Ok(p);
                }
            }
            i = i + 1;
        }
        Err(KError::OutOfMemory)
    }

    /// Gives back the block whose payload starts at `ptr`: its header goes
    /// to the head of the free list. A pointer that this heap did not hand
    /// out is refused.
    pub fn deallocate(&mut self, ptr: usize) -> (r: Result<(), KError>)
        requires
            old(self).wf(),
        ensures
            final(self).wf(),
            final(self).origin_spec() == old(self).origin_spec(),
            final(self).end_spec() == old(self).end_spec(),
            (final(self).free_nodes(), final(self).used_nodes(), r) == dealloc_step(
                old(self).free_nodes(),
                old(self).used_nodes(),
                ptr as int,
            ),
    {
        let mut j: usize = self.used.len();
        while j > 0
            invariant
                self.wf(),
                *self == *old(self),
                j <= self.used@.len(),
                forall|k: int| j <= k < self.used@.len() ==> payload(#[trigger] self.used@[k]) != ptr,
            decreases j,
        {
            let node = self.used[j - 1];
            assert(node_in(node, self.origin as int, self.end as int));
            if node.addr + HEADER_SIZE == ptr {
                let ghost old_free = self.free@;
                let ghost old_used = self.used@;
                proof {
                    assert(is_last_block_at(old_used, ptr as int, j - 1));
                    assert(has_block_at(old_used, ptr as int));
                    let k = choose|k: int| is_last_block_at(old_used, ptr as int, k);
                    assert(k == j - 1) by {
                        if k < j - 1 {
                            assert(payload(old_used[j - 1]) != ptr);
                        }
                        if k > j - 1 {
                            assert(payload(old_used[k]) != ptr);
                        }
                    }
                }
                let node = self.used.remove(j - 1);
                self.free.insert(0, node);
                proof {
                    let old_all = old_free.add(old_used);
                    let new_all = self.free@.add(self.used@);
                    let nf = old_free.len() as int;
                    let jj = j - 1;
                    let m = |x: int| if x == 0 { nf + jj } else if x <= nf { x - 1 } else if x - nf - 1 < jj { x - 1 } else { x };
                    assert(self.used@ == old_used.remove(jj));
                    assert forall|x: int| 0 <= x < new_all.len() implies 0 <= #[trigger] m(x) < old_all.len()
                        && old_all[m(x)].addr <= new_all[x].addr && block_end(new_all[x]) <= block_end(old_all[m(x)]) by {
                        if x == 0 {
                            assert(new_all[0] == old_used[jj]);
                            assert(old_all[nf + jj] == old_used[jj]);
                        } else if x <= nf {
                            assert(new_all[x] == old_free[x - 1]);
                            assert(old_all[x - 1] == old_free[x - 1]);
                        } else if x - nf - 1 < jj {
                            assert(new_all[x] == old_used[x - nf - 1]);
                            assert(old_all[x - 1] == old_used[x - nf - 1]);
                        } else {
                            assert(new_all[x] == old_used[x - nf]);
                            assert(old_all[x] == old_used[x - nf]);
                        }
                    }
                    lemma_disjoint_from(old_all, new_all, m);
                    assert(self.free@ =~= seq![node].add(old_free));
                    assert forall|k: int| 0 <= k < self.free@.len() implies node_in(
                        #[trigger] self.free@[k],
                        self.origin as int,
                        self.end as int,
                    ) by {
                        if k > 0 {
                            assert(self.free@[k] == old_free[k - 1]);
                        }
                    }
                    assert forall|k: int| 0 <= k < self.used@.len() implies node_in(
                        #[trigger] self.used@[k],
                        self.origin as int,
                        self.end as int,
                    ) by {
                        if k < j - 1 {
                            assert(self.used@[k] == old_used[k]);
                        } else {
                            assert(self.used@[k] == old_used[k + 1]);
                        }
                    }
                }
                return Ok(());
            }
            j = j - 1;
        }
        Err(KError::InvalidArgument)
    }
}

/// Where some node has room, there is a first one.
pub proof fn lemma_first_fit_exists(nodes: Seq<FreeListNode>, req: int, n: int)
    requires
        0 <= n <= nodes.len(),
        exists|i: int| 0 <= i < n && #[trigger] nodes[i].size >= req,
    ensures
        is_first_fit(nodes, req, first_fit(nodes, req)),
    decreases n,
{
    if exists|i: int| 0 <= i < n - 1 && #[trigger] nodes[i].size >= req {
        lemma_first_fit_exists(nodes, req, n - 1);
    } else {
        assert(is_first_fit(nodes, req, n - 1));
    }
}

/// A word-aligned allocation from a well-formed heap is word aligned, and
/// after it is given back an allocation of the same size succeeds again.
pub proof fn lemma_alloc_dealloc_alloc(heap: FreeListAllocator, size: usize)
    requires
        heap.wf(),
        alloc_step(heap.free_nodes(), heap.used_nodes(), size as int, 8).2 is Ok,
    ensures
        ({
            let (f1, u1, r1) = alloc_step(heap.free_nodes(), heap.used_nodes(), size as int, 8);
            let p = r1->Ok_0;
            let (f2, u2, r2) = dealloc_step(f1, u1, p as int);
            &&& p % 8 == 0
            &&& r2 is Ok
            &&& alloc_step(f2, u2, size as int, 8).2 is Ok
        }),
{
    let req = round_up_word(size as int);
    let (f1, u1, r1) = alloc_step(heap.free_nodes(), heap.used_nodes(), size as int, 8);
    let i = first_fit(heap.free_nodes(), req);
    lemma_first_fit_exists(heap.free_nodes(), req, heap.free_nodes().len() as int);
    let node = heap.free_nodes()[i];
    assert(node_in(node, heap.origin_spec(), heap.end_spec()));
    let p = r1->Ok_0;
    let last = u1.len() - 1;
    assert(payload(u1[last]) == p);
    assert(is_last_block_at(u1, p as int, last));
    assert(has_block_at(u1, p as int));
    let (f2, u2, r2) = dealloc_step(f1, u1, p as int);
    let k = choose|k: int| is_last_block_at(u1, p as int, k);
    assert(k == last);
    assert(f2[0] == u1[last]);
    assert(f2[0].size >= req);
    assert(has_fit(f2, req));
    lemma_first_fit_exists(f2, req, f2.len() as int);
}

} // verus!
