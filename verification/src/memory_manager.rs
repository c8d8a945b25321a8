//! Flat region-based memory allocator.
//!
//! The arena is partitioned into a contiguous, gap-free sequence of blocks
//! covering `[0, arena_size)`, each tagged free or used. Allocation is
//! first-fit with splitting; deallocation marks a block free and eagerly
//! coalesces adjacent free blocks, so no two adjacent free blocks coexist
//! once `deallocate` returns.

use vstd::prelude::*;

verus! {

/// One contiguous region of the arena, tagged free or used.
#[derive(Clone, Copy, PartialEq, Eq, Structural, Debug)]
pub struct MemoryBlock {
    pub start: usize,
    pub size: usize,
    pub is_free: bool,
}

/// The blocks partition `[0, total)` in address order without gaps.
pub open spec fn contiguous(bs: Seq<MemoryBlock>, total: nat) -> bool {
    &&& bs.len() >= 1
    &&& bs[0].start == 0
    &&& forall|i: int|
        0 <= i < bs.len() - 1 ==> #[trigger] bs[i + 1].start == bs[i].start + bs[i].size
    &&& bs.last().start + bs.last().size == total
}

/// No two adjacent blocks are both free (the coalescing invariant).
pub open spec fn well_coalesced(bs: Seq<MemoryBlock>) -> bool {
    forall|i: int|
        #![trigger bs[i].is_free, bs[i + 1].is_free]
        0 <= i < bs.len() - 1 ==> !(bs[i].is_free && bs[i + 1].is_free)
}

/// A used block of exactly this start and size is present.
pub open spec fn has_used(bs: Seq<MemoryBlock>, s: nat, sz: nat) -> bool {
    exists|i: int|
        0 <= i < bs.len() && !(#[trigger] bs[i]).is_free && bs[i].start == s && bs[i].size == sz
}

/// Some block starts exactly at `start`.
pub open spec fn block_at(bs: Seq<MemoryBlock>, start: nat) -> bool {
    exists|k: int| 0 <= k < bs.len() && (#[trigger] bs[k]).start == start
}

/// A used block of this start and size is present at an index other than `f`.
pub open spec fn used_besides(bs: Seq<MemoryBlock>, f: int, s: nat, sz: nat) -> bool {
    exists|k: int|
        0 <= k < bs.len() && k != f && !(#[trigger] bs[k]).is_free && bs[k].start == s && bs[k].size
            == sz
}

/// The two block lists carry exactly the same used blocks.
pub open spec fn same_used(a: Seq<MemoryBlock>, b: Seq<MemoryBlock>) -> bool {
    forall|s: nat, sz: nat|
        #![trigger has_used(a, s, sz)]
        #![trigger has_used(b, s, sz)]
        has_used(a, s, sz) <==> has_used(b, s, sz)
}

/// Block `i` is free and large enough to serve a request of `req` bytes.
pub open spec fn candidate(bs: Seq<MemoryBlock>, req: nat, i: int) -> bool {
    0 <= i < bs.len() && (#[trigger] bs[i]).is_free && bs[i].size >= req
}

/// Some block can serve a request of `req` bytes.
pub open spec fn has_candidate(bs: Seq<MemoryBlock>, req: nat) -> bool {
    exists|i: int| candidate(bs, req, i)
}

/// How a successful first-fit allocation at block `i` reshapes the block
/// list: the chosen block is the first candidate; it is either marked used
/// in place (exact fit) or split into a used block of exactly `req` bytes
/// followed by a free remainder.
pub open spec fn alloc_shape(
    pre: Seq<MemoryBlock>,
    post: Seq<MemoryBlock>,
    req: nat,
    i: int,
    off: nat,
) -> bool {
    &&& candidate(pre, req, i)
    &&& forall|j: int| 0 <= j < i ==> !candidate(pre, req, j)
    &&& off == pre[i].start
    &&& if pre[i].size > req {
        post =~= pre.update(
            i,
            (MemoryBlock { start: pre[i].start, size: req as usize, is_free: false }),
        ).insert(
            i + 1,
            (MemoryBlock {
                start: (pre[i].start + req) as usize,
                size: (pre[i].size - req) as usize,
                is_free: true,
            }),
        )
    } else {
        post =~= pre.update(
            i,
            (MemoryBlock { start: pre[i].start, size: pre[i].size, is_free: false }),
        )
    }
}

/// Every block of a contiguous partition ends at or before the arena end.
pub proof fn lemma_block_end_le_total(bs: Seq<MemoryBlock>, total: nat, i: int)
    requires
        contiguous(bs, total),
        0 <= i < bs.len(),
    ensures
        bs[i].start + bs[i].size <= total,
    decreases bs.len() - i,
{
    if i == bs.len() - 1 {
    } else {
        assert(bs[i + 1].start == bs[i].start + bs[i].size);
        lemma_block_end_le_total(bs, total, i + 1);
    }
}

/// Distinct blocks of a contiguous partition occupy disjoint address
/// ranges: an earlier block ends at or before a later block starts. In
/// particular no two live allocations ever overlap.
pub proof fn lemma_blocks_disjoint(bs: Seq<MemoryBlock>, total: nat, i: int, j: int)
    requires
        contiguous(bs, total),
        0 <= i < j < bs.len(),
    ensures
        bs[i].start + bs[i].size <= bs[j].start,
    decreases j - i,
{
    assert(bs[i + 1].start == bs[i].start + bs[i].size);
    if j > i + 1 {
        lemma_blocks_disjoint(bs, total, i + 1, j);
    }
}

/// Flat first-fit allocator over a fixed-size byte arena.
pub struct MemoryManager {
    memory: Vec<u8>,
    blocks: Vec<MemoryBlock>,
}

impl MemoryManager {
    /// The block list, in address order.
    pub closed spec fn blocks_view(self) -> Seq<MemoryBlock> {
        self.blocks@
    }

    /// Total size of the managed arena in bytes.
    pub closed spec fn arena_size(self) -> nat {
        self.memory@.len()
    }

    /// The allocator's invariant: the blocks partition the arena and
    /// adjacent free blocks are always coalesced.
    pub open spec fn wf(self) -> bool {
        &&& contiguous(self.blocks_view(), self.arena_size())
        &&& well_coalesced(self.blocks_view())
    }

    /// Creates an arena of `size` bytes holding one free block that spans it.
    pub fn new(size: usize) -> (r: MemoryManager)
        ensures
            r.wf(),
            r.arena_size() == size,
            r.blocks_view() =~= seq![(MemoryBlock { start: 0, size, is_free: true })],
    {
        let mut memory: Vec<u8> = Vec::new();
        while memory.len() < size
            invariant
                memory@.len() <= size,
            decreases size - memory.len(),
        {
            memory.push(0);
        }
        let mut blocks: Vec<MemoryBlock> = Vec::new();
        blocks.push(MemoryBlock { start: 0, size, is_free: true });
        MemoryManager { memory, blocks }
    }

    /// First-fit allocation: returns the offset of the first free block of
    /// at least `size` bytes, splitting it when it is larger than requested,
    /// or `None` when no block qualifies. The arena never grows. On success
    /// the returned offset heads a used block of exactly `size` bytes, so
    /// the offset never lands inside a block narrower than the request.
    pub fn allocate(&mut self, size: usize) -> (r: Option<usize>)
        requires
            old(self).wf(),
        ensures
            final(self).wf(),
            final(self).arena_size() == old(self).arena_size(),
            match r {
                Some(off) => {
                    &&& exists|i: int|
                        alloc_shape(
                            old(self).blocks_view(),
                            final(self).blocks_view(),
                            size as nat,
                            i,
                            off as nat,
                        )
                    &&& has_used(final(self).blocks_view(), off as nat, size as nat)
                },
                None => {
                    &&& final(self).blocks_view() == old(self).blocks_view()
                    &&& !has_candidate(old(self).blocks_view(), size as nat)
                },
            },
    {
        let n = self.blocks.len();
        let mut i: usize = 0;
        while i < n
            invariant
                old(self).wf(),
                *self == *old(self),
                n == self.blocks@.len(),
                i <= n,
                forall|j: int| 0 <= j < i ==> !candidate(self.blocks@, size as nat, j),
            decreases n - i,
        {
            let b = self.blocks[i];
            if b.is_free && b.size >= size {
                let total = self.memory.len();
                proof {
                    assert(total == self.arena_size());
                    lemma_block_end_le_total(self.blocks@, self.arena_size(), i as int);
                }
                let ghost pre = self.blocks@;
                let ghost ii = i as int;
                if b.size > size {
                    let rem = MemoryBlock {
                        start: b.start + size,
                        size: b.size - size,
                        is_free: true,
                    };
                    let _ = self.blocks.remove(i);
                    self.blocks.insert(i, MemoryBlock { start: b.start, size, is_free: false });
                    self.blocks.insert(i + 1, rem);
                    proof {
                        let post = self.blocks@;
                        assert(post =~= pre.update(
                            ii,
                            (MemoryBlock { start: b.start, size, is_free: false }),
                        ).insert(ii + 1, rem));
                        assert(alloc_shape(pre, post, size as nat, ii, b.start as nat));
                        assert forall|k: int| 0 <= k < post.len() - 1 implies #[trigger] post[k
                            + 1].start == post[k].start + post[k].size by {
                            if k < ii - 1 {
                                assert(pre[k + 1].start == pre[k].start + pre[k].size);
                            } else if k == ii - 1 {
                                assert(pre[k + 1].start == pre[k].start + pre[k].size);
                            } else if k > ii + 1 {
                                assert(pre[(k - 1) + 1].start == pre[k - 1].start + pre[k
                                    - 1].size);
                            }
                        }
                        assert forall|k: int|
                            #![trigger post[k].is_free, post[k + 1].is_free]
                            0 <= k < post.len() - 1 implies !(post[k].is_free && post[k
                            + 1].is_free) by {
                            if k < ii - 1 {
                                assert(!(pre[k].is_free && pre[k + 1].is_free));
                            } else if k == ii + 1 && k < post.len() - 1 {
                                assert(!(pre[ii].is_free && pre[ii + 1].is_free));
                            } else if k > ii + 1 {
                                assert(!(pre[k - 1].is_free && pre[(k - 1) + 1].is_free));
                            }
                        }
                        assert(post.last().start + post.last().size == self.arena_size());
                        assert(!post[ii].is_free && post[ii].start == b.start && post[ii].size
                            == size);
                        assert(has_used(post, b.start as nat, size as nat));
                    }
                } else {
                    let _ = self.blocks.remove(i);
                    self.blocks.insert(
                        i,
                        MemoryBlock { start: b.start, size: b.size, is_free: false },
                    );
                    proof {
                        let post = self.blocks@;
                        assert(post =~= pre.update(
                            ii,
                            (MemoryBlock { start: b.start, size: b.size, is_free: false }),
                        ));
                        assert(alloc_shape(pre, post, size as nat, ii, b.start as nat));
                        assert forall|k: int| 0 <= k < post.len() - 1 implies #[trigger] post[k
                            + 1].start == post[k].start + post[k].size by {
                            assert(pre[k + 1].start == pre[k].start + pre[k].size);
                        }
                        assert forall|k: int|
                            #![trigger post[k].is_free, post[k + 1].is_free]
                            0 <= k < post.len() - 1 implies !(post[k].is_free && post[k
                            + 1].is_free) by {
                            assert(!(pre[k].is_free && pre[k + 1].is_free));
                        }
                        assert(!post[ii].is_free && post[ii].start == b.start && post[ii].size
                            == size);
                        assert(has_used(post, b.start as nat, size as nat));
                    }
                }
                proof {
                    assert(alloc_shape(
                        old(self).blocks_view(),
                        self.blocks@,
                        size as nat,
                        ii,
                        b.start as nat,
                    ));
                }
                return Some(b.start);
            }
            i += 1;
        }
        None
    }

    /// Marks the block whose start equals `start` free (exact match; an
    /// interior offset is a no-op) and coalesces adjacent free blocks.
    /// Afterwards no two adjacent blocks are both free, and the used blocks
    /// are exactly those of the old state save the one deallocated.
    pub fn deallocate(&mut self, start: usize)
        requires
            old(self).wf(),
        ensures
            final(self).wf(),
            final(self).arena_size() == old(self).arena_size(),
            well_coalesced(final(self).blocks_view()),
            block_at(old(self).blocks_view(), start as nat) ==> exists|f: int|
                {
                    &&& 0 <= f < old(self).blocks_view().len()
                    &&& (#[trigger] old(self).blocks_view()[f]).start == start
                    &&& forall|j: int|
                        0 <= j < f ==> old(self).blocks_view()[j].start != start
                    &&& forall|s: nat, sz: nat|
                        #![trigger has_used(final(self).blocks_view(), s, sz)]
                        #![trigger used_besides(old(self).blocks_view(), f, s, sz)]
                        has_used(final(self).blocks_view(), s, sz) <==> used_besides(
                            old(self).blocks_view(),
                            f,
                            s,
                            sz,
                        )
                },
            !block_at(old(self).blocks_view(), start as nat) ==> final(self).blocks_view()
                == old(self).blocks_view(),
    {
        let n = self.blocks.len();
        let mut i: usize = 0;
        while i < n
            invariant
                old(self).wf(),
                *self == *old(self),
                n == self.blocks@.len(),
                i <= n,
                forall|j: int| 0 <= j < i ==> self.blocks@[j].start != start,
            decreases n - i,
        {
            let b = self.blocks[i];
            if b.start == start {
                let ghost pre = self.blocks@;
                let ghost ii = i as int;
                let _ = self.blocks.remove(i);
                self.blocks.insert(i, MemoryBlock { start: b.start, size: b.size, is_free: true });
                proof {
                    let mid = self.blocks@;
                    assert(mid =~= pre.update(
                        ii,
                        (MemoryBlock { start: b.start, size: b.size, is_free: true }),
                    ));
                    assert forall|k: int| 0 <= k < mid.len() - 1 implies #[trigger] mid[k
                        + 1].start == mid[k].start + mid[k].size by {
                        assert(pre[k + 1].start == pre[k].start + pre[k].size);
                    }
                    assert(contiguous(mid, self.arena_size()));
                    assert forall|s: nat, sz: nat|
                        #![trigger has_used(mid, s, sz)]
                        #![trigger used_besides(pre, ii, s, sz)]
                        has_used(mid, s, sz) <==> used_besides(pre, ii, s, sz) by {
                        if has_used(mid, s, sz) {
                            let w = choose|w: int|
                                0 <= w < mid.len() && !(#[trigger] mid[w]).is_free && mid[w].start
                                    == s && mid[w].size == sz;
                            assert(w != ii);
                            assert(!pre[w].is_free && pre[w].start == s && pre[w].size == sz);
                        }
                        if used_besides(pre, ii, s, sz) {
                            let w = choose|w: int|
                                0 <= w < pre.len() && w != ii && !(#[trigger] pre[w]).is_free
                                    && pre[w].start == s && pre[w].size == sz;
                            assert(!mid[w].is_free && mid[w].start == s && mid[w].size == sz);
                        }
                    }
                }
                self.merge_free_blocks();
                proof {
                    assert(block_at(old(self).blocks_view(), start as nat));
                }
                return ;
            }
            i += 1;
        }
    }

    /// One pass of eager coalescing: every adjacent pair of free blocks is
    /// merged into one, repeatedly, until no adjacent free pair remains.
    /// The used blocks are untouched.
    #[verifier::rlimit(80)]
    fn merge_free_blocks(&mut self)
        requires
            contiguous(old(self).blocks_view(), old(self).arena_size()),
        ensures
            final(self).arena_size() == old(self).arena_size(),
            contiguous(final(self).blocks_view(), final(self).arena_size()),
            well_coalesced(final(self).blocks_view()),
            same_used(final(self).blocks_view(), old(self).blocks_view()),
    {
        let ghost entry = self.blocks@;
        let mut i: usize = 0;
        while i < self.blocks.len() - 1
            invariant
                self.memory == old(self).memory,
                contiguous(self.blocks@, old(self).arena_size()),
                i < self.blocks@.len(),
                forall|j: int|
                    #![trigger self.blocks@[j].is_free]
                    0 <= j < i ==> !(self.blocks@[j].is_free && self.blocks@[j + 1].is_free),
                same_used(self.blocks@, entry),
            decreases self.blocks@.len() - i,
        {
            let b1 = self.blocks[i];
            let b2 = self.blocks[i + 1];
            if b1.is_free && b2.is_free {
                let total = self.memory.len();
                proof {
                    assert(total == self.arena_size());
                    assert(self.blocks@[i as int + 1].start == self.blocks@[i as int].start
                        + self.blocks@[i as int].size);
                    lemma_block_end_le_total(self.blocks@, self.arena_size(), i as int + 1);
                }
                let ghost cur = self.blocks@;
                let ghost ii = i as int;
                let _ = self.blocks.remove(i + 1);
                let _ = self.blocks.remove(i);
                self.blocks.insert(
                    i,
                    MemoryBlock { start: b1.start, size: b1.size + b2.size, is_free: true },
                );
                proof {
                    let post = self.blocks@;
                    let merged = MemoryBlock {
                        start: b1.start,
                        size: (b1.size + b2.size) as usize,
                        is_free: true,
                    };
                    assert(post =~= cur.subrange(0, ii) + seq![merged] + cur.subrange(
                        ii + 2,
                        cur.len() as int,
                    ));
                    assert forall|k: int| 0 <= k < post.len() - 1 implies #[trigger] post[k
                        + 1].start == post[k].start + post[k].size by {
                        if k < ii - 1 {
                            assert(cur[k + 1].start == cur[k].start + cur[k].size);
                        } else if k == ii - 1 {
                            assert(cur[k + 1].start == cur[k].start + cur[k].size);
                        } else if k == ii {
                            assert(cur[ii + 1].start == cur[ii].start + cur[ii].size);
                            assert(cur[ii + 2].start == cur[ii + 1].start + cur[ii + 1].size);
                        } else {
                            assert(cur[(k + 1) + 1].start == cur[k + 1].start + cur[k + 1].size);
                        }
                    }
                    if ii == post.len() - 1 {
                        assert(cur[ii + 1].start == cur[ii].start + cur[ii].size);
                        assert(post.last().start + post.last().size == cur.last().start
                            + cur.last().size);
                    }
                    assert(contiguous(post, old(self).arena_size()));
                    assert forall|j: int|
                        #![trigger post[j].is_free]
                        0 <= j < ii implies !(post[j].is_free && post[j + 1].is_free) by {
                        assert(!(cur[j].is_free && cur[j + 1].is_free));
                    }
                    assert forall|s: nat, sz: nat|
                        #![trigger has_used(post, s, sz)]
                        #![trigger has_used(cur, s, sz)]
                        has_used(post, s, sz) <==> has_used(cur, s, sz) by {
                        if has_used(post, s, sz) {
                            let w = choose|w: int|
                                0 <= w < post.len() && !(#[trigger] post[w]).is_free
                                    && post[w].start == s && post[w].size == sz;
                            if w < ii {
                                assert(!cur[w].is_free && cur[w].start == s && cur[w].size == sz);
                            } else {
                                assert(w != ii);
                                assert(!cur[w + 1].is_free && cur[w + 1].start == s && cur[w
                                    + 1].size == sz);
                            }
                        }
                        if has_used(cur, s, sz) {
                            let w = choose|w: int|
                                0 <= w < cur.len() && !(#[trigger] cur[w]).is_free && cur[w].start
                                    == s && cur[w].size == sz;
                            if w < ii {
                                assert(!post[w].is_free && post[w].start == s && post[w].size
                                    == sz);
                            } else {
                                assert(w != ii && w != ii + 1);
                                assert(!post[w - 1].is_free && post[w - 1].start == s && post[w
                                    - 1].size == sz);
                            }
                        }
                    }
                }
            } else {
                i += 1;
            }
        }
    }
}

} // verus!
