use vstd::prelude::*;
use crate::address::{PhysAddr, PhysPageNum, VirtAddr, VirtPageNum};
use crate::config::{PAGE_SIZE, PPN_LIMIT, VA_LIMIT, VPN_LIMIT};
use crate::frame_allocator::{dealloc_post, frame_alloc, frame_dealloc, FramePool, FrameTracker};
use crate::address::vpn_index;
use crate::page_table::{lemma_pte_fields, lemma_pool_kept_trans, pool_kept, pte_of, MapPermission, PageTableEntry, SV39PageTable, PTE_V};

verus! {

/// A range of virtual pages `[start, end)`, each backed by its own frame.
pub struct MapArea {
    pub start: VirtPageNum,
    pub end: VirtPageNum,
    pub perm: MapPermission,
    /// The frame of page `start + i` is `frames[i]`.
    pub frames: Vec<FrameTracker>,
}

impl MapArea {
    pub open spec fn wf(&self) -> bool {
        &&& self.start.0 <= self.end.0 <= VPN_LIMIT
        &&& self.frames@.len() == self.end.0 - self.start.0
        &&& self.perm.wf()
    }

    pub open spec fn contains(&self, v: int) -> bool {
        self.start.0 <= v < self.end.0
    }

    /// The frame that backs page `v`.
    pub open spec fn frame_of(&self, v: int) -> int {
        self.frames@[v - self.start.0].ppn.0 as int
    }
}

/// An address space: a page table and the areas it maps, which never overlap.
pub struct MemorySet {
    pub page_table: SV39PageTable,
    pub areas: Vec<MapArea>,
}

pub open spec fn disjoint(a: &MapArea, b: &MapArea) -> bool {
    a.end.0 <= b.start.0 || b.end.0 <= a.start.0
}

impl MemorySet {
    pub open spec fn frame_at(&self, i: int, j: int) -> int {
        self.areas@[i].frames@[j].ppn.0 as int
    }

    pub open spec fn in_frames(&self, i: int, j: int) -> bool {
        0 <= i < self.areas@.len() && 0 <= j < self.areas@[i].frames@.len()
    }

    /// The areas are well formed and disjoint, and the table maps exactly
    /// their pages, each to its frame with its area's permissions.
    pub open spec fn wf(&self) -> bool {
        &&& self.page_table.wf()
        &&& forall|i: int| 0 <= i < self.areas@.len() ==> (#[trigger] self.areas@[i]).wf()
        &&& forall|i: int, j: int|
            0 <= i < self.areas@.len() && 0 <= j < self.areas@.len() && i != j ==> disjoint(
                &self.areas@[i],
                &self.areas@[j],
            )
        &&& forall|i: int, v: int|
            0 <= i < self.areas@.len() && #[trigger] self.areas@[i].contains(v)
                ==> self.page_table.walk(v) == Some(
                pte_of(self.areas@[i].frame_of(v), self.areas@[i].perm.bits + PTE_V),
            )
        &&& forall|v: int|
            0 <= v < VPN_LIMIT && (#[trigger] self.page_table.walk(v)).is_some() ==> exists|i: int|
                0 <= i < self.areas@.len() && #[trigger] self.areas@[i].contains(v)
    }

    /// Every frame of the space is allocated in `pool`, and no two of them
    /// are the same.
    pub open spec fn owns_frames(&self, pool: &FramePool) -> bool {
        &&& self.page_table.frames_allocated_in(pool)
        &&& forall|i: int, j: int|
            self.in_frames(i, j) ==> pool.allocator.is_allocated(#[trigger] self.frame_at(i, j))
        &&& forall|i: int, j: int, i2: int, j2: int|
            self.in_frames(i, j) && self.in_frames(i2, j2) && (i != i2 || j != j2)
                ==> #[trigger] self.frame_at(i, j) != #[trigger] self.frame_at(i2, j2)
        &&& forall|i: int, j: int, k: int|
            self.in_frames(i, j) && 0 <= k < self.page_table.node_frames().len()
                ==> #[trigger] self.frame_at(i, j) != (#[trigger] self.page_table.node_frames()[k]).0
    }

    /// The page-table entry that page `v` has.
    pub open spec fn lookup(&self, v: int) -> Option<PageTableEntry> {
        self.page_table.walk(v)
    }

    /// An address space with no area.
    pub fn new_bare(pool: &mut FramePool) -> (r: MemorySet)
        requires
            old(pool).wf(),
            old(pool).allocator.free_count() >= 1,
        ensures
            r.wf(),
            r.owns_frames(final(pool)),
            r.areas@.len() == 0,
            pool_kept(old(pool), final(pool)),
    {
        let page_table = SV39PageTable::new(pool);
        let r = MemorySet { page_table, areas: Vec::new() };
        proof {
            assert forall|v: int| 0 <= v < VPN_LIMIT && (#[trigger] r.page_table.walk(v)).is_some() implies exists|i: int|
                0 <= i < r.areas@.len() && #[trigger] r.areas@[i].contains(v) by {
                assert(!r.page_table.mapping().dom().contains(v));
            }
        }
        r
    }

    /// The hardware token of the space's page table.
    pub fn token(&self) -> (r: u64)
        requires
            self.wf(),
            self.page_table.root().0 < PPN_LIMIT,
        ensures
            r == 0x8000_0000_0000_0000 + self.page_table.root().0,
    {
        self.page_table.token()
    }

    /// The entry of page `vpn`, when it is mapped.
    pub fn translate(&self, vpn: VirtPageNum) -> (r: Option<PageTableEntry>)
        requires
            self.wf(),
            vpn.0 < VPN_LIMIT,
        ensures
            r == self.lookup(vpn.0 as int),
    {
        self.page_table.translate(vpn)
    }

    #[verifier::rlimit(100)]
    /// Adds the area of pages from `start_va`'s page up to `end_va`
    /// rounded up, each page backed by a fresh zeroed frame and mapped with
    /// `perm`. The area must not overlap any area of the space.
    pub fn insert_framed_area(
        &mut self,
        start_va: VirtAddr,
        end_va: VirtAddr,
        perm: MapPermission,
        pool: &mut FramePool,
    )
        requires
            old(self).wf(),
            old(pool).wf(),
            old(self).owns_frames(old(pool)),
            start_va.0 < end_va.0 < VA_LIMIT,
            perm.wf(),
            forall|i: int|
                0 <= i < old(self).areas@.len() ==> range_disjoint(
                    #[trigger] old(self).areas@[i],
                    start_va.0 as int / PAGE_SIZE as int,
                    (end_va.0 + PAGE_SIZE - 1) / PAGE_SIZE as int,
                ),
            old(pool).allocator.free_count() >= frames_for((end_va.0 + PAGE_SIZE - 1) / PAGE_SIZE as int
                - start_va.0 as int / PAGE_SIZE as int),
        ensures
            final(self).wf(),
            final(self).owns_frames(final(pool)),
            pool_kept(old(pool), final(pool)),
            forall|p: int| !old(pool).allocator.is_free(p) ==> !final(pool).allocator.is_free(p),
            final(self).areas@.len() == old(self).areas@.len() + 1,
            forall|i: int| 0 <= i < old(self).areas@.len() ==> final(self).areas@[i] == old(self).areas@[i],
            final(self).areas@.last().start.0 == start_va.0 / PAGE_SIZE as u64,
            final(self).areas@.last().end.0 == (end_va.0 + PAGE_SIZE - 1) / PAGE_SIZE as int,
            final(self).areas@.last().perm == perm,
            forall|j: int, o: int|
                0 <= j < final(self).areas@.last().frames@.len() && 0 <= o < PAGE_SIZE ==> #[trigger] final(pool).memory.byte(
                    final(self).areas@.last().frames@[j].ppn.0 as int,
                    o,
                ) == 0,
            final(pool).allocator.free_count() + frames_for((end_va.0 + PAGE_SIZE - 1) / PAGE_SIZE as int
                - start_va.0 as int / PAGE_SIZE as int) >= old(pool).allocator.free_count(),
            forall|v: int|
                #![trigger final(self).lookup(v)]
                final(self).areas@.last().contains(v) ==> final(self).lookup(v) == Some(
                    pte_of(final(self).areas@.last().frame_of(v), perm.bits + PTE_V),
                ),
            forall|v: int|
                #![trigger final(self).lookup(v)]
                0 <= v < VPN_LIMIT && !final(self).areas@.last().contains(v) ==> final(self).lookup(v)
                    == old(self).lookup(v),
    {
        let s = start_va.floor();
        let e = end_va.ceil();
        let ghost n0 = self.areas@.len() as int;
        self.areas.push(MapArea { start: s, end: s, perm, frames: Vec::new() });
        proof {
            assert forall|i: int| 0 <= i < self.areas@.len() implies (#[trigger] self.areas@[i]).wf() by {
                if i < n0 {
                    assert(old(self).areas@[i].wf());
                }
            }
            assert forall|i: int, v: int|
                0 <= i < self.areas@.len() && #[trigger] self.areas@[i].contains(v)
                implies self.page_table.walk(v) == Some(
                pte_of(self.areas@[i].frame_of(v), self.areas@[i].perm.bits + PTE_V)) by {
                assert(i < n0);
                assert(old(self).areas@[i].contains(v));
            }
            assert forall|v: int| 0 <= v < VPN_LIMIT && (#[trigger] self.page_table.walk(v)).is_some()
                implies exists|i: int| 0 <= i < self.areas@.len() && #[trigger] self.areas@[i].contains(v) by {
                let i = choose|i: int| 0 <= i < old(self).areas@.len() && #[trigger] old(self).areas@[i].contains(v);
                assert(self.areas@[i] == old(self).areas@[i]);
            }
            assert forall|i: int, j: int|
                0 <= i < self.areas@.len() && 0 <= j < self.areas@.len() && i != j
                implies disjoint(&self.areas@[i], &self.areas@[j]) by {
                if i < n0 && j < n0 {
                    assert(self.areas@[i] == old(self).areas@[i]);
                    assert(self.areas@[j] == old(self).areas@[j]);
                } else if i < n0 {
                    assert(range_disjoint(old(self).areas@[i], s.0 as int, e.0 as int));
                } else {
                    assert(range_disjoint(old(self).areas@[j], s.0 as int, e.0 as int));
                }
            }
            assert(self.areas@[n0].frames@.len() == 0);
            assert forall|i: int, j: int| self.in_frames(i, j) implies
                pool.allocator.is_allocated(#[trigger] self.frame_at(i, j)) by {
                assert(i < n0);
                assert(old(self).in_frames(i, j));
                assert(self.frame_at(i, j) == old(self).frame_at(i, j));
            }
            assert forall|i: int, j: int, i2: int, j2: int|
                self.in_frames(i, j) && self.in_frames(i2, j2) && (i != i2 || j != j2)
                implies #[trigger] self.frame_at(i, j) != #[trigger] self.frame_at(i2, j2) by {
                assert(i < n0 && i2 < n0);
                assert(old(self).in_frames(i, j));
                assert(old(self).in_frames(i2, j2));
                assert(self.frame_at(i, j) == old(self).frame_at(i, j));
                assert(self.frame_at(i2, j2) == old(self).frame_at(i2, j2));
            }
            assert forall|i: int, j: int, k: int|
                self.in_frames(i, j) && 0 <= k < self.page_table.node_frames().len()
                implies #[trigger] self.frame_at(i, j) != (#[trigger] self.page_table.node_frames()[k]).0 by {
                assert(i < n0);
                assert(old(self).in_frames(i, j));
                assert(self.frame_at(i, j) == old(self).frame_at(i, j));
            }
            assert forall|p: int| old(pool).memory.covers(p) && !old(pool).allocator.is_free(p)
                implies #[trigger] pool.same_frame(old(pool), p) by {}
        }
        let mut v: usize = s.0;
        proof {
            lemma_blocks_bound(s.0 as int, e.0 as int);
        }
        while v < e.0
            invariant
                self.wf(),
                pool.wf(),
                self.owns_frames(pool),
                pool_kept(old(pool), pool),
                forall|p: int| !old(pool).allocator.is_free(p) ==> !pool.allocator.is_free(p),
                s.0 <= v <= e.0 <= VPN_LIMIT,
                s.0 == start_va.0 / PAGE_SIZE as u64,
                e.0 == (end_va.0 + PAGE_SIZE - 1) / PAGE_SIZE as int,
                self.areas@.len() == n0 + 1,
                n0 == old(self).areas@.len(),
                forall|i: int| 0 <= i < n0 ==> self.areas@[i] == old(self).areas@[i],
                forall|i: int| 0 <= i < n0 ==> range_disjoint(#[trigger] old(self).areas@[i], s.0 as int, e.0 as int),
                self.areas@[n0].start == s,
                self.areas@[n0].end.0 == v,
                self.areas@[n0].perm == perm,
                perm.wf(),
                forall|j: int, o: int|
                    0 <= j < self.areas@[n0].frames@.len() && 0 <= o < PAGE_SIZE ==> #[trigger] pool.memory.byte(
                        self.areas@[n0].frames@[j].ppn.0 as int,
                        o,
                    ) == 0,
                pool.allocator.free_count() >= (e.0 - v) + 2 * blocks_in(v as int, e.0 as int) + (if v == s.0 { 2int } else { 0 }),
                pool.allocator.free_count() + (v - s.0) + 2 * (blocks_in(s.0 as int, e.0 as int) - blocks_in(v as int, e.0 as int))
                    + (if v > s.0 { 2int } else { 0 }) >= old(pool).allocator.free_count(),
                forall|x: int|
                    #![trigger self.page_table.walk(x)]
                    0 <= x < VPN_LIMIT && !(s.0 <= x < v) ==> self.page_table.walk(x) == old(self).page_table.walk(x),
            decreases e.0 - v,
        {
            let ghost pool_a = *pool;
            let ghost ms_a = *self;
            let t = frame_alloc(pool).unwrap();
            let ghost pool_b = *pool;
            let ppn = t.ppn;
            proof {
                assert(!self.page_table.walk(v as int).is_some()) by {
                    if self.page_table.walk(v as int).is_some() {
                        let i = choose|i: int| 0 <= i < self.areas@.len() && #[trigger] self.areas@[i].contains(v as int);
                        if i < n0 {
                            assert(range_disjoint(old(self).areas@[i], s.0 as int, e.0 as int));
                        }
                    }
                }
                assert(self.page_table.frames_allocated_in(pool)) by {
                    assert forall|k: int| 0 <= k < self.page_table.node_frames().len() implies
                        pool.allocator.is_allocated((#[trigger] self.page_table.node_frames()[k]).0 as int) by {
                        assert(pool_a.allocator.is_allocated(self.page_table.node_frames()[k].0 as int));
                    }
                }
                assert(ppn.0 < PPN_LIMIT) by {
                    assert(pool.memory.first_ppn <= pool.allocator.start());
                }
                lemma_blocks_step(v as int, e.0 as int);
                if v > s.0 && v % 512 != 0 {
                    assert(self.areas@[n0].contains(v - 1));
                    assert(self.page_table.walk(v - 1).is_some());
                    lemma_same_block(v as int);
                    assert(self.page_table.nodes_needed(v as int) == 0);
                }
            }
            self.page_table.map(VirtPageNum(v), ppn, perm, pool);
            let mut a = self.areas.pop().unwrap();
            a.frames.push(t);
            a.end = VirtPageNum(v + 1);
            self.areas.push(a);
            proof {
                lemma_insert_step(&ms_a, self, &pool_a, &pool_b, pool, n0, v as int, s.0 as int, e.0 as int, perm, t,
                    old(self).areas@);
                lemma_pool_kept_trans(&pool_a, &pool_b, pool);
                lemma_pool_kept_trans(old(pool), &pool_a, pool);
                let fs = self.areas@[n0].frames@;
                assert forall|j: int, o: int|
                    0 <= j < fs.len() && 0 <= o < PAGE_SIZE implies #[trigger] pool.memory.byte(fs[j].ppn.0 as int, o) == 0 by {
                    let f = fs[j].ppn.0 as int;
                    if j < fs.len() - 1 {
                        assert(fs[j] == ms_a.areas@[n0].frames@[j]);
                        assert(ms_a.in_frames(n0, j));
                        assert(pool_a.allocator.is_allocated(ms_a.frame_at(n0, j)));
                        assert(pool_a.memory.byte(f, o) == 0);
                        assert(pool_b.same_frame(&pool_a, f));
                        assert(pool.same_frame(&pool_b, f));
                    } else {
                        assert(fs[j] == t);
                        assert(pool_b.memory.byte(f, o) == 0);
                        assert(pool_b.allocator.is_allocated(f));
                        assert(pool.same_frame(&pool_b, f));
                    }
                }
            }
            v = v + 1;
        }
        proof {
            assert(self.areas@.last() == self.areas@[n0]);
        }
    }
}

impl MemorySet {
    /// Halfway through removing `area`: its pages from `start + j` on are
    /// still mapped and their frames still owned; the rest of the space is
    /// as `wf` and `owns_frames` say.
    pub open spec fn removing(&self, area: &MapArea, j: int, pool: &FramePool) -> bool {
        &&& self.page_table.wf()
        &&& area.wf()
        &&& 0 <= j <= area.frames@.len()
        &&& forall|i: int| 0 <= i < self.areas@.len() ==> (#[trigger] self.areas@[i]).wf()
        &&& forall|i: int, k: int|
            0 <= i < self.areas@.len() && 0 <= k < self.areas@.len() && i != k ==> disjoint(
                &self.areas@[i],
                &self.areas@[k],
            )
        &&& forall|i: int| 0 <= i < self.areas@.len() ==> disjoint(#[trigger] &self.areas@[i], area)
        &&& forall|i: int, v: int|
            0 <= i < self.areas@.len() && #[trigger] self.areas@[i].contains(v)
                ==> self.page_table.walk(v) == Some(
                pte_of(self.areas@[i].frame_of(v), self.areas@[i].perm.bits + PTE_V),
            )
        &&& forall|v: int|
            area.start.0 + j <= v < area.end.0 ==> #[trigger] self.page_table.walk(v) == Some(
                pte_of(area.frame_of(v), area.perm.bits + PTE_V),
            )
        &&& forall|v: int|
            0 <= v < VPN_LIMIT && (#[trigger] self.page_table.walk(v)).is_some() ==> (exists|i: int|
                0 <= i < self.areas@.len() && #[trigger] self.areas@[i].contains(v)) || (area.start.0
                + j <= v < area.end.0)
        &&& self.owns_frames(pool)
        &&& forall|k: int| j <= k < area.frames@.len() ==> pool.allocator.is_allocated(
            (#[trigger] area.frames@[k]).ppn.0 as int,
        )
        &&& forall|k: int, k2: int|
            j <= k < area.frames@.len() && j <= k2 < area.frames@.len() && k != k2
                ==> (#[trigger] area.frames@[k]).ppn != (#[trigger] area.frames@[k2]).ppn
        &&& forall|k: int, i: int, i2: int|
            j <= k < area.frames@.len() && self.in_frames(i, i2)
                ==> (#[trigger] area.frames@[k]).ppn.0 != #[trigger] self.frame_at(i, i2)
        &&& forall|k: int, n: int|
            j <= k < area.frames@.len() && 0 <= n < self.page_table.node_frames().len()
                ==> (#[trigger] area.frames@[k]).ppn != #[trigger] self.page_table.node_frames()[n]
    }

    /// Removes the area that starts at page `start_vpn`: its pages are
    /// unmapped and its frames go back to the pool.
    pub fn remove_area_with_start_vpn(&mut self, start_vpn: VirtPageNum, pool: &mut FramePool)
        requires
            old(self).wf(),
            old(pool).wf(),
            old(self).owns_frames(old(pool)),
            exists|i: int| 0 <= i < old(self).areas@.len() && (#[trigger] old(self).areas@[i]).start == start_vpn,
        ensures
            final(self).wf(),
            final(self).owns_frames(final(pool)),
            final(pool).wf(),
            final(pool).memory == old(pool).memory,
            exists|idx: int|
                0 <= idx < old(self).areas@.len() && old(self).areas@[idx].start == start_vpn
                    && final(self).areas@ == old(self).areas@.remove(idx) && (forall|v: int|
                    #![trigger final(self).lookup(v)]
                    0 <= v < VPN_LIMIT ==> final(self).lookup(v) == if old(self).areas@[idx].contains(v) {
                        None
                    } else {
                        old(self).lookup(v)
                    }) && (forall|k: int|
                    0 <= k < old(self).areas@[idx].frames@.len() ==> final(pool).allocator.is_free(
                        (#[trigger] old(self).areas@[idx].frames@[k]).ppn.0 as int,
                    )),
    {
        let mut idx: usize = 0;
        let len = self.areas.len();
        while self.areas[idx].start.0 != start_vpn.0
            invariant
                idx < self.areas@.len(),
                len == self.areas@.len(),
                *self == *old(self),
                exists|i: int| idx <= i < self.areas@.len() && (#[trigger] self.areas@[i]).start == start_vpn,
            decreases self.areas@.len() - idx,
        {
            idx = idx + 1;
        }
        let ghost ms0 = *self;
        let area = self.areas.remove(idx);
        proof {
            lemma_remove_start(&ms0, self, &area, idx as int, pool);
        }
        let n = area.frames.len();
        let mut j: usize = 0;
        while j < n
            invariant
                self.removing(&area, j as int, pool),
                pool.wf(),
                pool.memory == old(pool).memory,
                n == area.frames@.len(),
                self.areas@ == ms0.areas@.remove(idx as int),
                area == ms0.areas@[idx as int],
                forall|v: int|
                    #![trigger self.page_table.walk(v)]
                    0 <= v < VPN_LIMIT && !(area.start.0 <= v < area.start.0 + j) ==> self.page_table.walk(v)
                        == ms0.page_table.walk(v),
                forall|v: int| area.start.0 <= v < area.start.0 + j ==> #[trigger] self.page_table.walk(v).is_none(),
                forall|k: int| 0 <= k < j ==> pool.allocator.is_free((#[trigger] area.frames@[k]).ppn.0 as int),
                forall|k: int| j <= k < n ==> !pool.allocator.is_free((#[trigger] area.frames@[k]).ppn.0 as int),
            decreases n - j,
        {
            let vpn = VirtPageNum(area.start.0 + j);
            let ppn = area.frames[j].ppn;
            let ghost ms_a = *self;
            let ghost pool_a = *pool;
            proof {
                assert(self.page_table.walk(vpn.0 as int) == Some(
                    pte_of(area.frame_of(vpn.0 as int), area.perm.bits + PTE_V)));
                assert(area.frames@[j as int].ppn == ppn);
            }
            self.page_table.unmap(vpn);
            frame_dealloc(pool, ppn);
            proof {
                lemma_remove_step(&ms_a, self, &area, j as int, &pool_a, pool);
                assert forall|k: int| 0 <= k < j + 1 implies pool.allocator.is_free((#[trigger] area.frames@[k]).ppn.0 as int) by {
                    if k < j {
                        assert(pool_a.allocator.is_free(area.frames@[k].ppn.0 as int));
                    }
                }
                assert forall|k: int| j + 1 <= k < n implies !pool.allocator.is_free((#[trigger] area.frames@[k]).ppn.0 as int) by {
                    assert(area.frames@[k].ppn != area.frames@[j as int].ppn);
                }
            }
            j = j + 1;
        }
        proof {
            lemma_remove_done(self, &area, pool);
            let i = idx as int;
            assert forall|v: int| 0 <= v < VPN_LIMIT implies #[trigger] self.lookup(v) == if ms0.areas@[i].contains(v) {
                None
            } else {
                ms0.lookup(v)
            } by {
                if ms0.areas@[i].contains(v) {
                    assert(self.page_table.walk(v).is_none());
                }
            }
        }
    }
}

/// The byte at virtual address `va` of space `ms`, when its page is mapped.
pub open spec fn user_byte(ms: &MemorySet, pool: &FramePool, va: int) -> Option<u8> {
    match ms.lookup(va / PAGE_SIZE as int) {
        Some(e) => Some(pool.memory.byte(e.spec_ppn(), va % PAGE_SIZE as int)),
        None => None,
    }
}

/// A mapped page's frame is one of the space's own frames, so it lies in
/// the pool's memory.
pub proof fn lemma_mapped_frame(ms: &MemorySet, pool: &FramePool, v: int)
    requires
        ms.wf(),
        ms.owns_frames(pool),
        pool.wf(),
        0 <= v < VPN_LIMIT,
        ms.lookup(v).is_some(),
    ensures
        pool.memory.covers(ms.lookup(v).unwrap().spec_ppn()),
        pool.allocator.is_allocated(ms.lookup(v).unwrap().spec_ppn()),
{
    let i = choose|i: int| 0 <= i < ms.areas@.len() && #[trigger] ms.areas@[i].contains(v);
    let a = ms.areas@[i];
    assert(a.wf());
    let f = a.frame_of(v);
    assert(ms.in_frames(i, v - a.start.0));
    assert(ms.frame_at(i, v - a.start.0) == f);
    assert(pool.allocator.is_allocated(f));
    lemma_pte_fields(f, a.perm.bits + PTE_V);
}

impl MemorySet {
    /// Reads the byte at `va`, or `None` when its page is not mapped.
    pub fn read_byte(&self, va: VirtAddr, pool: &FramePool) -> (r: Option<u8>)
        requires
            self.wf(),
            self.owns_frames(pool),
            pool.wf(),
            va.0 < VA_LIMIT,
        ensures
            r == user_byte(self, pool, va.0 as int),
    {
        let vpn = va.floor();
        match self.page_table.translate(vpn) {
            Some(e) => {
                proof {
                    lemma_mapped_frame(self, pool, vpn.0 as int);
                }
                Some(pool.memory.read_byte(e.ppn(), va.page_offset()))
            },
            None => None,
        }
    }

    /// Writes `value` at `va` and returns true, or returns false and changes
    /// nothing when its page is not mapped. No other byte of memory changes.
    pub fn write_byte(&self, va: VirtAddr, value: u8, pool: &mut FramePool) -> (r: bool)
        requires
            self.wf(),
            self.owns_frames(old(pool)),
            old(pool).wf(),
            va.0 < VA_LIMIT,
        ensures
            final(pool).wf(),
            final(pool).allocator == old(pool).allocator,
            self.owns_frames(final(pool)),
            r == user_byte(self, old(pool), va.0 as int).is_some(),
            r ==> user_byte(self, final(pool), va.0 as int) == Some(value),
            forall|p: int, o: int|
                #![trigger final(pool).memory.byte(p, o)]
                final(pool).memory.covers(p) && 0 <= o < PAGE_SIZE && (!r || p != self.lookup(
                    va.0 as int / PAGE_SIZE as int,
                ).unwrap().spec_ppn() || o != va.0 % PAGE_SIZE as u64) ==> final(pool).memory.byte(p, o)
                    == old(pool).memory.byte(p, o),
    {
        let vpn = va.floor();
        match self.page_table.translate(vpn) {
            Some(e) => {
                proof {
                    lemma_mapped_frame(self, old(pool), vpn.0 as int);
                }
                pool.memory.write_byte(e.ppn(), va.page_offset(), value);
                true
            },
            None => false,
        }
    }
}

/// The number of pages that `len` bytes from `ptr` touch.
pub open spec fn pages_touched(ptr: int, len: int) -> int {
    if len == 0 {
        0
    } else {
        (ptr + len - 1) / PAGE_SIZE as int - ptr / PAGE_SIZE as int + 1
    }
}

/// Where piece `k` of the buffer of `len` bytes at `ptr` starts.
pub open spec fn piece_start(ptr: int, k: int) -> int {
    if k == 0 {
        ptr
    } else {
        (ptr / PAGE_SIZE as int + k) * PAGE_SIZE as int
    }
}

/// Where piece `k` of the buffer of `len` bytes at `ptr` ends: at the end
/// of its page, or of the buffer.
pub open spec fn piece_end(ptr: int, len: int, k: int) -> int {
    let page_end = (ptr / PAGE_SIZE as int + k + 1) * PAGE_SIZE as int;
    if page_end < ptr + len {
        page_end
    } else {
        ptr + len
    }
}

/// Copies the `len` bytes of space `ms` at virtual address `ptr`, one piece
/// per page they touch, or gives `None` when one of them lies in a page
/// that is not mapped.
pub fn translated_byte_buffer(ms: &MemorySet, pool: &FramePool, ptr: u64, len: usize) -> (r: Option<Vec<Vec<u8>>>)
    requires
        ms.wf(),
        ms.owns_frames(pool),
        pool.wf(),
        ptr + len <= VA_LIMIT,
    ensures
        r.is_some() <==> forall|i: int| 0 <= i < len ==> #[trigger] user_byte(ms, pool, ptr + i).is_some(),
        r matches Some(v) ==> {
            &&& v@.len() == pages_touched(ptr as int, len as int)
            &&& forall|k: int|
                0 <= k < v@.len() ==> (#[trigger] v@[k])@.len() == piece_end(ptr as int, len as int, k)
                    - piece_start(ptr as int, k)
            &&& forall|k: int, i: int|
                0 <= k < v@.len() && 0 <= i < v@[k]@.len() ==> Some(#[trigger] v@[k]@[i]) == user_byte(
                    ms,
                    pool,
                    piece_start(ptr as int, k) + i,
                )
        },
{
    let end: u64 = ptr + len as u64;
    let mut pieces: Vec<Vec<u8>> = Vec::new();
    let mut start: u64 = ptr;
    let ghost mut k: int = 0;
    while start < end
        invariant
            ms.wf(),
            ms.owns_frames(pool),
            pool.wf(),
            end == ptr + len,
            end <= VA_LIMIT,
            ptr <= start <= end,
            k == pieces@.len(),
            start == if k == 0 { ptr as int } else if piece_start(ptr as int, k) < end { piece_start(ptr as int, k) } else { end as int },
            k <= pages_touched(ptr as int, len as int),
            start < end ==> k < pages_touched(ptr as int, len as int),
            start == end ==> k == pages_touched(ptr as int, len as int),
            forall|i: int| 0 <= i < start - ptr ==> #[trigger] user_byte(ms, pool, ptr + i).is_some(),
            forall|j: int|
                0 <= j < k ==> (#[trigger] pieces@[j])@.len() == piece_end(ptr as int, len as int, j)
                    - piece_start(ptr as int, j),
            forall|j: int, i: int|
                0 <= j < k && 0 <= i < pieces@[j]@.len() ==> Some(#[trigger] pieces@[j]@[i]) == user_byte(
                    ms,
                    pool,
                    piece_start(ptr as int, j) + i,
                ),
        decreases end - start,
    {
        let page_end: u64 = (start / 0x1000 + 1) * 0x1000;
        let stop: u64 = if page_end < end { page_end } else { end };
        proof {
            assert(start / 4096 == ptr / 4096 + k) by (nonlinear_arith)
                requires
                    start == (if k == 0 { ptr as int } else { (ptr / 4096 + k) * 4096 }),
                    0 <= k,
                    ptr >= 0,
            ;
        }
        let mut piece: Vec<u8> = Vec::new();
        let mut a: u64 = start;
        while a < stop
            invariant
                ms.wf(),
                ms.owns_frames(pool),
                pool.wf(),
                start <= a <= stop <= end <= VA_LIMIT,
                ptr <= start,
                end == ptr + len,
                piece@.len() == a - start,
                forall|i: int| 0 <= i < piece@.len() ==> Some(#[trigger] piece@[i]) == user_byte(ms, pool, start + i),
            decreases stop - a,
        {
            match ms.read_byte(VirtAddr(a), pool) {
                Some(b) => piece.push(b),
                None => {
                    proof {
                        assert(user_byte(ms, pool, ptr + (a - ptr)).is_none());
                    }
                    return None;
                },
            }
            a = a + 1;
        }
        proof {
            assert forall|i: int| 0 <= i < stop - ptr implies #[trigger] user_byte(ms, pool, ptr + i).is_some() by {
                if i >= start - ptr {
                    assert(Some(piece@[i - (start - ptr)]) == user_byte(ms, pool, start + (i - (start - ptr))));
                }
            }
            assert(piece_start(ptr as int, k) == start) by (nonlinear_arith)
                requires
                    start == (if k == 0 { ptr as int } else { (ptr / 4096 + k) * 4096 }),
                    k == 0 ==> start == ptr,
            ;
            assert(piece_end(ptr as int, len as int, k) == stop);
            assert(k + 1 != 0);
            assert(piece_start(ptr as int, k + 1) == page_end);
            if stop < end {
                assert(pages_touched(ptr as int, len as int) > k + 1) by (nonlinear_arith)
                    requires
                        stop == (ptr / 4096 + k + 1) * 4096,
                        stop < ptr + len,
                        len > 0,
                        ptr >= 0,
                        pages_touched(ptr as int, len as int) == (ptr + len - 1) / 4096 - ptr / 4096 + 1,
                ;
            } else {
                assert(pages_touched(ptr as int, len as int) == k + 1) by (nonlinear_arith)
                    requires
                        (ptr / 4096 + k) * 4096 <= ptr + len - 1 || k == 0,
                        ptr + len <= (ptr / 4096 + k + 1) * 4096,
                        start == (if k == 0 { ptr as int } else { (ptr / 4096 + k) * 4096 }),
                        start < ptr + len,
                        start / 4096 == ptr / 4096 + k,
                        len > 0,
                        ptr >= 0,
                        k >= 0,
                        pages_touched(ptr as int, len as int) == (ptr + len - 1) / 4096 - ptr / 4096 + 1,
                ;
            }
        }
        pieces.push(piece);
        start = stop;
        proof {
            k = k + 1;
        }
    }
    proof {
        assert(start == end);
    }
    Some(pieces)
}

/// Where, in physical memory, the object at virtual address `ptr` of space
/// `ms` lives; `None` when its page is not mapped.
pub fn translated_ref(ms: &MemorySet, ptr: u64) -> (r: Option<PhysAddr>)
    requires
        ms.wf(),
        ptr < VA_LIMIT,
    ensures
        r.is_some() == ms.lookup(ptr as int / PAGE_SIZE as int).is_some(),
        r matches Some(pa) ==> pa.0 == ms.lookup(ptr as int / PAGE_SIZE as int).unwrap().spec_ppn() * PAGE_SIZE
            + ptr % PAGE_SIZE as u64,
{
    ms.page_table.translate_va(VirtAddr(ptr))
}

/// Where, in physical memory, the object at virtual address `ptr` of space
/// `ms` lives, for writing it; `None` when its page is not mapped.
pub fn translated_refmut(ms: &MemorySet, ptr: u64) -> (r: Option<PhysAddr>)
    requires
        ms.wf(),
        ptr < VA_LIMIT,
    ensures
        r.is_some() == ms.lookup(ptr as int / PAGE_SIZE as int).is_some(),
        r matches Some(pa) ==> pa.0 == ms.lookup(ptr as int / PAGE_SIZE as int).unwrap().spec_ppn() * PAGE_SIZE
            + ptr % PAGE_SIZE as u64,
{
    translated_ref(ms, ptr)
}

/// Copies the zero-terminated string of space `ms` at virtual address
/// `ptr`, without its terminator; `None` when a byte before the
/// terminator, or the terminator itself, is not mapped or lies past the end
/// of the space.
pub fn translated_str(ms: &MemorySet, pool: &FramePool, ptr: u64) -> (r: Option<Vec<u8>>)
    requires
        ms.wf(),
        ms.owns_frames(pool),
        pool.wf(),
    ensures
        r matches Some(v) ==> {
            &&& forall|i: int| 0 <= i < v@.len() ==> Some(#[trigger] v@[i]) == user_byte(ms, pool, ptr + i)
            &&& forall|i: int| 0 <= i < v@.len() ==> v@[i] != 0
            &&& user_byte(ms, pool, ptr + v@.len()) == Some(0u8)
            &&& ptr + v@.len() < VA_LIMIT
        },
        r.is_none() ==> exists|n: int|
            0 <= n && (ptr + n >= VA_LIMIT || (#[trigger] user_byte(ms, pool, ptr + n)).is_none()) && forall|i: int|
                0 <= i < n ==> (#[trigger] user_byte(ms, pool, ptr + i) matches Some(b) && b != 0),
{
    let mut v: Vec<u8> = Vec::new();
    let mut va: u64 = ptr;
    loop
        invariant
            ms.wf(),
            ms.owns_frames(pool),
            pool.wf(),
            ptr <= va,
            va == ptr + v@.len(),
            forall|i: int| 0 <= i < v@.len() ==> Some(#[trigger] v@[i]) == user_byte(ms, pool, ptr + i),
            forall|i: int| 0 <= i < v@.len() ==> v@[i] != 0,
        decreases VA_LIMIT - va,
    {
        if va >= VA_LIMIT {
            proof {
                assert forall|i: int| 0 <= i < v@.len() implies (#[trigger] user_byte(ms, pool, ptr + i) matches Some(b) && b != 0) by {
                    assert(Some(v@[i]) == user_byte(ms, pool, ptr + i));
                }
                assert(ptr + v@.len() >= VA_LIMIT || user_byte(ms, pool, ptr + v@.len()).is_none());
            }
            return None;
        }
        match ms.read_byte(VirtAddr(va), pool) {
            Some(b) => {
                if b == 0 {
                    return Some(v);
                }
                v.push(b);
            },
            None => {
                proof {
                    assert forall|i: int| 0 <= i < v@.len() implies (#[trigger] user_byte(ms, pool, ptr + i) matches Some(b) && b != 0) by {
                        assert(Some(v@[i]) == user_byte(ms, pool, ptr + i));
                    }
                    assert(ptr + v@.len() >= VA_LIMIT || user_byte(ms, pool, ptr + v@.len()).is_none());
                }
                return None;
            },
        }
        va = va + 1;
    }
}

proof fn lemma_remove_start(ms0: &MemorySet, ms: &MemorySet, area: &MapArea, idx: int, pool: &FramePool)
    requires
        ms0.wf(),
        ms0.owns_frames(pool),
        0 <= idx < ms0.areas@.len(),
        *area == ms0.areas@[idx],
        ms.areas@ == ms0.areas@.remove(idx),
        ms.page_table == ms0.page_table,
    ensures
        ms.removing(area, 0, pool),
{
    let oi = |i: int| if i < idx { i } else { i + 1 };
    assert forall|i: int| 0 <= i < ms.areas@.len() implies ms.areas@[i] == ms0.areas@[oi(i)] by {}
    assert(area.wf());
    assert forall|i: int| 0 <= i < ms.areas@.len() implies (#[trigger] ms.areas@[i]).wf() by {
        assert(ms0.areas@[oi(i)].wf());
    }
    assert forall|i: int, k: int|
        0 <= i < ms.areas@.len() && 0 <= k < ms.areas@.len() && i != k implies disjoint(&ms.areas@[i], &ms.areas@[k]) by {
        assert(disjoint(&ms0.areas@[oi(i)], &ms0.areas@[oi(k)]));
    }
    assert forall|i: int| 0 <= i < ms.areas@.len() implies disjoint(#[trigger] &ms.areas@[i], area) by {
        assert(disjoint(&ms0.areas@[oi(i)], &ms0.areas@[idx]));
    }
    assert forall|i: int, v: int| 0 <= i < ms.areas@.len() && #[trigger] ms.areas@[i].contains(v) implies
        ms.page_table.walk(v) == Some(pte_of(ms.areas@[i].frame_of(v), ms.areas@[i].perm.bits + PTE_V)) by {
        assert(ms0.areas@[oi(i)].contains(v));
    }
    assert forall|v: int| area.start.0 <= v < area.end.0 implies #[trigger] ms.page_table.walk(v) == Some(
        pte_of(area.frame_of(v), area.perm.bits + PTE_V)) by {
        assert(ms0.areas@[idx].contains(v));
    }
    assert forall|v: int| 0 <= v < VPN_LIMIT && (#[trigger] ms.page_table.walk(v)).is_some() implies (exists|i: int|
        0 <= i < ms.areas@.len() && #[trigger] ms.areas@[i].contains(v)) || (area.start.0 <= v < area.end.0) by {
        let i0 = choose|i: int| 0 <= i < ms0.areas@.len() && #[trigger] ms0.areas@[i].contains(v);
        if i0 < idx {
            assert(ms.areas@[i0].contains(v));
        } else if i0 > idx {
            assert(ms.areas@[i0 - 1].contains(v));
        }
    }
    assert forall|i: int, j: int| ms.in_frames(i, j) implies pool.allocator.is_allocated(#[trigger] ms.frame_at(i, j)) by {
        assert(ms0.in_frames(oi(i), j));
        assert(ms.frame_at(i, j) == ms0.frame_at(oi(i), j));
    }
    assert forall|i: int, j: int, i2: int, j2: int|
        ms.in_frames(i, j) && ms.in_frames(i2, j2) && (i != i2 || j != j2)
        implies #[trigger] ms.frame_at(i, j) != #[trigger] ms.frame_at(i2, j2) by {
        assert(ms0.in_frames(oi(i), j));
        assert(ms0.in_frames(oi(i2), j2));
        assert(ms.frame_at(i, j) == ms0.frame_at(oi(i), j));
        assert(ms.frame_at(i2, j2) == ms0.frame_at(oi(i2), j2));
    }
    assert forall|i: int, j: int, k: int|
        ms.in_frames(i, j) && 0 <= k < ms.page_table.node_frames().len()
        implies #[trigger] ms.frame_at(i, j) != (#[trigger] ms.page_table.node_frames()[k]).0 by {
        assert(ms0.in_frames(oi(i), j));
        assert(ms.frame_at(i, j) == ms0.frame_at(oi(i), j));
    }
    assert forall|k: int| 0 <= k < area.frames@.len() implies pool.allocator.is_allocated(
        (#[trigger] area.frames@[k]).ppn.0 as int) by {
        assert(ms0.in_frames(idx, k));
        assert(ms0.frame_at(idx, k) == area.frames@[k].ppn.0);
    }
    assert forall|k: int, k2: int| 0 <= k < area.frames@.len() && 0 <= k2 < area.frames@.len() && k != k2
        implies (#[trigger] area.frames@[k]).ppn != (#[trigger] area.frames@[k2]).ppn by {
        assert(ms0.in_frames(idx, k));
        assert(ms0.in_frames(idx, k2));
        assert(ms0.frame_at(idx, k) != ms0.frame_at(idx, k2));
    }
    assert forall|k: int, i: int, i2: int| 0 <= k < area.frames@.len() && ms.in_frames(i, i2)
        implies (#[trigger] area.frames@[k]).ppn.0 != #[trigger] ms.frame_at(i, i2) by {
        assert(ms0.in_frames(idx, k));
        assert(ms0.in_frames(oi(i), i2));
        assert(ms.frame_at(i, i2) == ms0.frame_at(oi(i), i2));
        assert(ms0.frame_at(idx, k) != ms0.frame_at(oi(i), i2));
    }
    assert forall|k: int, n: int| 0 <= k < area.frames@.len() && 0 <= n < ms.page_table.node_frames().len()
        implies (#[trigger] area.frames@[k]).ppn != #[trigger] ms.page_table.node_frames()[n] by {
        assert(ms0.in_frames(idx, k));
        assert(ms0.frame_at(idx, k) != ms0.page_table.node_frames()[n].0);
    }
}

#[verifier::rlimit(100)]
proof fn lemma_remove_step(
    ms_a: &MemorySet,
    ms: &MemorySet,
    area: &MapArea,
    j: int,
    pool_a: &FramePool,
    pool: &FramePool,
)
    requires
        ms_a.removing(area, j, pool_a),
        j < area.frames@.len(),
        ms.areas@ == ms_a.areas@,
        ms.page_table.wf(),
        ms.page_table.node_frames() == ms_a.page_table.node_frames(),
        ms.page_table.walk(area.start.0 + j).is_none(),
        forall|v: int|
            0 <= v < VPN_LIMIT && v != area.start.0 + j ==> #[trigger] ms.page_table.walk(v) == ms_a.page_table.walk(v),
        dealloc_post(pool_a.allocator, pool.allocator, area.frames@[j].ppn),
    ensures
        ms.removing(area, j + 1, pool),
{
    let p = area.frames@[j].ppn.0 as int;
    assert forall|i: int, v: int| 0 <= i < ms.areas@.len() && #[trigger] ms.areas@[i].contains(v) implies
        ms.page_table.walk(v) == Some(pte_of(ms.areas@[i].frame_of(v), ms.areas@[i].perm.bits + PTE_V)) by {
        assert(disjoint(&ms_a.areas@[i], area));
        assert(ms_a.areas@[i].wf());
    }
    assert forall|v: int| 0 <= v < VPN_LIMIT && (#[trigger] ms.page_table.walk(v)).is_some() implies (exists|i: int|
        0 <= i < ms.areas@.len() && #[trigger] ms.areas@[i].contains(v)) || (area.start.0 + j + 1 <= v < area.end.0) by {
        assert(ms_a.page_table.walk(v).is_some());
    }
    assert forall|v: int| area.start.0 + j + 1 <= v < area.end.0 implies #[trigger] ms.page_table.walk(v) == Some(
        pte_of(area.frame_of(v), area.perm.bits + PTE_V)) by {
        assert(ms_a.page_table.walk(v) == Some(pte_of(area.frame_of(v), area.perm.bits + PTE_V)));
    }
    assert forall|i: int, i2: int| ms.in_frames(i, i2) implies pool.allocator.is_allocated(#[trigger] ms.frame_at(i, i2)) by {
        assert(ms_a.in_frames(i, i2));
        assert(ms_a.frame_at(i, i2) != area.frames@[j].ppn.0);
        assert(pool_a.allocator.is_allocated(ms_a.frame_at(i, i2)));
    }
    assert forall|k: int| 0 <= k < ms.page_table.node_frames().len() implies pool.allocator.is_allocated(
        (#[trigger] ms.page_table.node_frames()[k]).0 as int) by {
        assert(pool_a.allocator.is_allocated(ms_a.page_table.node_frames()[k].0 as int));
        assert(area.frames@[j].ppn != ms_a.page_table.node_frames()[k]);
    }
    assert forall|k: int| j + 1 <= k < area.frames@.len() implies pool.allocator.is_allocated(
        (#[trigger] area.frames@[k]).ppn.0 as int) by {
        assert(pool_a.allocator.is_allocated(area.frames@[k].ppn.0 as int));
        assert(area.frames@[k].ppn != area.frames@[j].ppn);
    }
    assert(ms.page_table.frames_allocated_in(pool));
    assert forall|i: int, i2: int, i3: int, i4: int|
        ms.in_frames(i, i2) && ms.in_frames(i3, i4) && (i != i3 || i2 != i4)
        implies #[trigger] ms.frame_at(i, i2) != #[trigger] ms.frame_at(i3, i4) by {
        assert(ms_a.in_frames(i, i2) && ms_a.in_frames(i3, i4));
        assert(ms_a.frame_at(i, i2) != ms_a.frame_at(i3, i4));
    }
    assert forall|i: int, i2: int, k: int|
        ms.in_frames(i, i2) && 0 <= k < ms.page_table.node_frames().len()
        implies #[trigger] ms.frame_at(i, i2) != (#[trigger] ms.page_table.node_frames()[k]).0 by {
        assert(ms_a.in_frames(i, i2));
        assert(ms_a.frame_at(i, i2) != ms_a.page_table.node_frames()[k].0);
    }
    assert(ms.owns_frames(pool));
    assert forall|k: int, i: int, i2: int|
        j + 1 <= k < area.frames@.len() && ms.in_frames(i, i2)
        implies (#[trigger] area.frames@[k]).ppn.0 != #[trigger] ms.frame_at(i, i2) by {
        assert(ms_a.in_frames(i, i2));
        assert(area.frames@[k].ppn.0 != ms_a.frame_at(i, i2));
    }
    assert(forall|k: int, k2: int|
            j + 1 <= k < area.frames@.len() && j + 1 <= k2 < area.frames@.len() && k != k2
                ==> (#[trigger] area.frames@[k]).ppn != (#[trigger] area.frames@[k2]).ppn);
    assert(forall|k: int, i: int, i2: int|
            j + 1 <= k < area.frames@.len() && ms.in_frames(i, i2)
                ==> (#[trigger] area.frames@[k]).ppn.0 != #[trigger] ms.frame_at(i, i2));
    assert(forall|k: int, n: int|
            j + 1 <= k < area.frames@.len() && 0 <= n < ms.page_table.node_frames().len()
                ==> (#[trigger] area.frames@[k]).ppn != #[trigger] ms.page_table.node_frames()[n]);
    assert(forall|i: int| 0 <= i < ms.areas@.len() ==> (#[trigger] ms.areas@[i]).wf());
}

proof fn lemma_remove_done(ms: &MemorySet, area: &MapArea, pool: &FramePool)
    requires
        ms.removing(area, area.frames@.len() as int, pool),
    ensures
        ms.wf(),
        ms.owns_frames(pool),
{
    assert forall|v: int| 0 <= v < VPN_LIMIT && (#[trigger] ms.page_table.walk(v)).is_some() implies exists|i: int|
        0 <= i < ms.areas@.len() && #[trigger] ms.areas@[i].contains(v) by {
        assert(area.start.0 + area.frames@.len() == area.end.0);
    }
}

proof fn lemma_insert_step(
    ms_a: &MemorySet,
    ms: &MemorySet,
    pool_a: &FramePool,
    pool_b: &FramePool,
    pool_c: &FramePool,
    n0: int,
    v: int,
    s: int,
    e: int,
    perm: MapPermission,
    t: FrameTracker,
    old_areas: Seq<MapArea>,
)
    requires
        ms_a.wf(),
        ms_a.owns_frames(pool_a),
        ms_a.areas@.len() == n0 + 1,
        0 <= n0 <= old_areas.len(),
        forall|i: int| 0 <= i < n0 ==> ms_a.areas@[i] == old_areas[i],
        forall|i: int| 0 <= i < n0 ==> range_disjoint(#[trigger] old_areas[i], s, e),
        ms_a.areas@[n0].start.0 == s,
        ms_a.areas@[n0].end.0 == v,
        ms_a.areas@[n0].perm == perm,
        perm.wf(),
        s <= v < e <= VPN_LIMIT,
        pool_a.allocator.wf(),
        pool_a.allocator.is_free(t.ppn.0 as int),
        !pool_b.allocator.is_free(t.ppn.0 as int),
        forall|p: int| p != t.ppn.0 ==> pool_b.allocator.is_free(p) == pool_a.allocator.is_free(p),
        pool_b.allocator.start() == pool_a.allocator.start(),
        pool_b.allocator.end() == pool_a.allocator.end(),
        ms.page_table.wf(),
        ms.page_table.walk(v) == Some(pte_of(t.ppn.0 as int, perm.bits + PTE_V)),
        forall|x: int|
            0 <= x < VPN_LIMIT && x != v ==> #[trigger] ms.page_table.walk(x) == ms_a.page_table.walk(x),
        forall|p: int| pool_b.allocator.is_allocated(p) ==> pool_c.allocator.is_allocated(p),
        ms.page_table.frames_allocated_in(pool_c),
        ms.page_table.nodes_grown_from(&ms_a.page_table, pool_b),
        ms.areas@.len() == n0 + 1,
        forall|i: int| 0 <= i < n0 ==> ms.areas@[i] == ms_a.areas@[i],
        ms.areas@[n0].start.0 == s,
        ms.areas@[n0].end.0 == v + 1,
        ms.areas@[n0].perm == perm,
        ms.areas@[n0].frames@ == ms_a.areas@[n0].frames@.push(t),
    ensures
        ms.wf(),
        ms.owns_frames(pool_c),
{
    let ppn = t.ppn;
    let pool = pool_c;
    assert(pool_b.allocator.is_allocated(t.ppn.0 as int)) by {
        let ra = pool_a.allocator.recycled();
        if !(pool_a.allocator.current() <= t.ppn.0 < pool_a.allocator.end()) {
            let k = choose|k: int| 0 <= k < ra.len() && ra[k] == t.ppn.0;
            assert(pool_a.allocator.start() <= ra[k] < pool_a.allocator.current());
        }
    }
let vi = v;
                assert forall|i: int| 0 <= i < ms.areas@.len() implies (#[trigger] ms.areas@[i]).wf() by {
                    if i < n0 {
                        assert(ms_a.areas@[i].wf());
                    }
                }
                assert forall|i: int, x: int|
                    0 <= i < ms.areas@.len() && #[trigger] ms.areas@[i].contains(x)
                    implies ms.page_table.walk(x) == Some(
                    pte_of(ms.areas@[i].frame_of(x), ms.areas@[i].perm.bits + PTE_V)) by {
                    if i < n0 {
                        assert(ms_a.areas@[i].contains(x));
                        assert(range_disjoint(old_areas[i], s, e));
                    } else {
                        if x < vi {
                            assert(ms_a.areas@[n0].contains(x));
                            assert(ms.areas@[n0].frames@[x - s] == ms_a.areas@[n0].frames@[x - s]);
                        } else {
                            assert(ms.areas@[n0].frames@[x - s] == t);
                        }
                    }
                }
                assert forall|x: int| 0 <= x < VPN_LIMIT && (#[trigger] ms.page_table.walk(x)).is_some()
                    implies exists|i: int| 0 <= i < ms.areas@.len() && #[trigger] ms.areas@[i].contains(x) by {
                    if x == vi {
                        assert(ms.areas@[n0].contains(x));
                    } else {
                        let i = choose|i: int| 0 <= i < ms_a.areas@.len() && #[trigger] ms_a.areas@[i].contains(x);
                        assert(ms.areas@[i].contains(x));
                    }
                }
                assert forall|i: int, j: int|
                    0 <= i < ms.areas@.len() && 0 <= j < ms.areas@.len() && i != j
                    implies disjoint(&ms.areas@[i], &ms.areas@[j]) by {
                    if i < n0 && j < n0 {
                        assert(disjoint(&ms_a.areas@[i], &ms_a.areas@[j]));
                    } else if i < n0 {
                        assert(range_disjoint(old_areas[i], s, e));
                    } else {
                        assert(range_disjoint(old_areas[j], s, e));
                    }
                }
                assert(ms.wf());
                assert forall|i: int, j: int| ms.in_frames(i, j) implies
                    pool_c.allocator.is_allocated(#[trigger] ms.frame_at(i, j)) by {
                    if i == n0 && j == ms.areas@[n0].frames@.len() - 1 {
                        assert(ms.frame_at(i, j) == t.ppn.0);
                    } else {
                        assert(ms_a.in_frames(i, j));
                        assert(ms.frame_at(i, j) == ms_a.frame_at(i, j));
                        assert(pool_a.allocator.is_allocated(ms_a.frame_at(i, j)));
                    }
                }
                assert forall|i: int, j: int, i2: int, j2: int|
                    ms.in_frames(i, j) && ms.in_frames(i2, j2) && (i != i2 || j != j2)
                    implies #[trigger] ms.frame_at(i, j) != #[trigger] ms.frame_at(i2, j2) by {
                    let last = ms.areas@[n0].frames@.len() - 1;
                    if i == n0 && j == last {
                        assert(ms_a.in_frames(i2, j2));
                        assert(pool_a.allocator.is_allocated(ms_a.frame_at(i2, j2)));
                        assert(ms.frame_at(i2, j2) == ms_a.frame_at(i2, j2));
                    } else if i2 == n0 && j2 == last {
                        assert(ms_a.in_frames(i, j));
                        assert(pool_a.allocator.is_allocated(ms_a.frame_at(i, j)));
                        assert(ms.frame_at(i, j) == ms_a.frame_at(i, j));
                    } else {
                        assert(ms_a.in_frames(i, j));
                        assert(ms_a.in_frames(i2, j2));
                        assert(ms.frame_at(i, j) == ms_a.frame_at(i, j));
                        assert(ms.frame_at(i2, j2) == ms_a.frame_at(i2, j2));
                    }
                }
                assert forall|i: int, j: int, k: int|
                    ms.in_frames(i, j) && 0 <= k < ms.page_table.node_frames().len()
                    implies #[trigger] ms.frame_at(i, j) != (#[trigger] ms.page_table.node_frames()[k]).0 by {
                    let last = ms.areas@[n0].frames@.len() - 1;
                    let nf = ms.page_table.node_frames()[k];
                    if i == n0 && j == last {
                        if k < ms_a.page_table.node_frames().len() && nf == ms_a.page_table.node_frames()[k] {
                            assert(pool_a.allocator.is_allocated(nf.0 as int));
                        } else {
                            assert(pool_b.allocator.is_free(nf.0 as int));
                        }
                    } else {
                        assert(ms_a.in_frames(i, j));
                        assert(ms.frame_at(i, j) == ms_a.frame_at(i, j));
                        if k < ms_a.page_table.node_frames().len() && nf == ms_a.page_table.node_frames()[k] {
                        } else {
                            assert(pool_b.allocator.is_allocated(ms_a.frame_at(i, j)));
                            assert(pool_b.allocator.is_free(nf.0 as int));
                        }
                    }
                }
                }

/// The multiples of 512 in `[v, e)`: where a run of pages enters a new
/// leaf node of the table.
pub open spec fn blocks_in(v: int, e: int) -> int {
    (e + 511) / 512 - (v + 511) / 512
}

/// Frames enough to map `n` consecutive pages: one per page, and two inner
/// nodes for the first page and for each 512-page block entered.
pub open spec fn frames_for(n: int) -> int {
    n + 2 * (n / 512) + 4
}

proof fn lemma_blocks_step(v: int, e: int)
    requires
        0 <= v < e,
    ensures
        v % 512 == 0 ==> blocks_in(v, e) == blocks_in(v + 1, e) + 1,
        v % 512 != 0 ==> blocks_in(v, e) == blocks_in(v + 1, e),
{
    let q = v / 512;
    let r = v % 512;
    assert(v == 512 * q + r && 0 <= r < 512) by (nonlinear_arith)
        requires
            q == v / 512,
            r == v % 512,
            0 <= v,
    ;
    if r == 0 {
        assert((v + 511) / 512 == q && (v + 512) / 512 == q + 1) by (nonlinear_arith)
            requires
                v == 512 * q,
                q >= 0,
        ;
    } else {
        assert((v + 511) / 512 == q + 1 && (v + 512) / 512 == q + 1) by (nonlinear_arith)
            requires
                v == 512 * q + r,
                1 <= r < 512,
                q >= 0,
        ;
    }
}

proof fn lemma_blocks_bound(s: int, e: int)
    requires
        0 <= s < e,
    ensures
        0 <= blocks_in(s, e) <= (e - s) / 512 + 1,
        (e - s) + 2 * blocks_in(s, e) + 2 <= frames_for(e - s),
{
    assert(0 <= (e + 511) / 512 - (s + 511) / 512 <= (e - s) / 512 + 1) by (nonlinear_arith)
        requires
            0 <= s < e,
    ;
}

/// Page `v`, not the first of its 512-page block, has the same two upper
/// indices as page `v - 1`.
proof fn lemma_same_block(v: int)
    requires
        v >= 1,
        v % 512 != 0,
    ensures
        vpn_index(v, 0) == vpn_index(v - 1, 0),
        vpn_index(v, 1) == vpn_index(v - 1, 1),
{
    assert(v / 512 == (v - 1) / 512) by (nonlinear_arith)
        requires
            v >= 1,
            v % 512 != 0,
    ;
    vstd::arithmetic::div_mod::lemma_div_denominator(v, 512, 512);
    vstd::arithmetic::div_mod::lemma_div_denominator(v - 1, 512, 512);
}

/// Area `a` shares no page with `[start, end)`.
pub open spec fn range_disjoint(a: MapArea, start: int, end: int) -> bool {
    a.end.0 <= start || end <= a.start.0
}

/// Bytes copied out of a user address space, in pieces.
pub struct UserBuffer {
    pub buffers: Vec<Vec<u8>>,
}

/// The total length of `pieces`.
pub open spec fn total_len(pieces: Seq<Vec<u8>>) -> int
    decreases pieces.len(),
{
    if pieces.len() == 0 {
        0
    } else {
        total_len(pieces.drop_last()) + pieces.last()@.len()
    }
}

impl UserBuffer {
    pub fn new(buffers: Vec<Vec<u8>>) -> (r: UserBuffer)
        ensures
            r.buffers@ == buffers@,
    {
        UserBuffer { buffers }
    }

    /// The number of bytes in all pieces.
    pub fn len(&self) -> (r: usize)
        requires
            total_len(self.buffers@) <= usize::MAX,
        ensures
            r == total_len(self.buffers@),
    {
        let mut total: usize = 0;
        let mut i: usize = 0;
        while i < self.buffers.len()
            invariant
                i <= self.buffers@.len(),
                total == total_len(self.buffers@.subrange(0, i as int)),
                total_len(self.buffers@) <= usize::MAX,
            decreases self.buffers@.len() - i,
        {
            proof {
                assert(self.buffers@.subrange(0, i + 1).drop_last() =~= self.buffers@.subrange(0, i as int));
                lemma_total_len_prefix(self.buffers@, i + 1);
            }
            total = total + self.buffers[i].len();
            i = i + 1;
        }
        proof {
            assert(self.buffers@.subrange(0, i as int) =~= self.buffers@);
        }
        total
    }
}

proof fn lemma_total_len_prefix(s: Seq<Vec<u8>>, k: int)
    requires
        0 <= k <= s.len(),
    ensures
        total_len(s.subrange(0, k)) <= total_len(s),
    decreases s.len(),
{
    if k < s.len() {
        assert(s.drop_last().subrange(0, k) =~= s.subrange(0, k));
        lemma_total_len_prefix(s.drop_last(), k);
    } else {
        assert(s.subrange(0, k) =~= s);
    }
}

} // verus!
