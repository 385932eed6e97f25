use vstd::prelude::*;
use crate::address::{vpn_index, lemma_indexes_determine_vpn, PhysAddr, PhysPageNum, VirtAddr, VirtPageNum};
use crate::config::{PAGE_SIZE, PPN_LIMIT, PTE_PER_PAGE, VA_LIMIT, VPN_LIMIT};
use crate::frame_allocator::{frame_alloc, FramePool, FrameTracker};

verus! {

/// Valid.
pub const PTE_V: u8 = 1;
/// Readable.
pub const PTE_R: u8 = 2;
/// Writable.
pub const PTE_W: u8 = 4;
/// Executable.
pub const PTE_X: u8 = 8;
/// Reachable from user mode.
pub const PTE_U: u8 = 16;
/// Global.
pub const PTE_G: u8 = 32;
/// Accessed.
pub const PTE_A: u8 = 64;
/// Dirty.
pub const PTE_D: u8 = 128;

/// The permissions of a mapping: some of R, W, X and U, in the bit
/// positions they have in a page-table entry.
#[derive(Clone, Copy, PartialEq, Eq, Structural, Debug)]
pub struct MapPermission {
    pub bits: u8,
}

impl MapPermission {
    pub const R: u8 = 2;
    pub const W: u8 = 4;
    pub const X: u8 = 8;
    pub const U: u8 = 16;

    /// Only R, W, X and U are set.
    pub open spec fn wf(&self) -> bool {
        self.bits % 2 == 0 && self.bits < 32
    }

    /// The permission set with exactly the given bits, when they are only
    /// R, W, X and U.
    pub fn from_bits(bits: u8) -> (r: Option<MapPermission>)
        ensures
            r matches Some(p) ==> p.bits == bits && p.wf(),
            r.is_none() <==> !(bits % 2 == 0 && bits < 32),
    {
        if bits % 2 == 0 && bits < 32 {
            Some(MapPermission { bits })
        } else {
            None
        }
    }

    /// Whether every bit of `flag` is set.
    pub fn contains(&self, flag: u8) -> (r: bool)
        ensures
            r == (self.bits & flag == flag),
    {
        self.bits & flag == flag
    }
}

/// One SV39 page-table entry: the frame number in bits 10 to 53 and the
/// flags in bits 0 to 7.
#[derive(Clone, Copy, PartialEq, Eq, Structural, Debug)]
pub struct PageTableEntry {
    pub bits: u64,
}

/// The entry that maps frame `ppn` with `flags`.
pub open spec fn pte_of(ppn: int, flags: int) -> PageTableEntry {
    PageTableEntry { bits: (ppn * 1024 + flags) as u64 }
}

pub proof fn lemma_pte_fields(ppn: int, flags: int)
    requires
        0 <= ppn < PPN_LIMIT,
        0 <= flags < 256,
    ensures
        0 <= ppn * 1024 + flags <= u64::MAX,
        pte_of(ppn, flags).spec_ppn() == ppn,
        pte_of(ppn, flags).spec_flags() == flags,
{
    assert(0 <= ppn * 1024 + flags < 0x1000_0000_0000 * 1024) by (nonlinear_arith)
        requires
            0 <= ppn < 0x1000_0000_0000,
            0 <= flags < 256,
    ;
    let b = ppn * 1024 + flags;
    assert(b / 1024 == ppn && b % 256 == flags) by (nonlinear_arith)
        requires
            b == ppn * 1024 + flags,
            0 <= flags < 256,
            0 <= ppn,
    ;
}

impl PageTableEntry {
    pub open spec fn spec_ppn(&self) -> int {
        (self.bits as int / 1024) % PPN_LIMIT as int
    }

    pub open spec fn spec_flags(&self) -> int {
        self.bits as int % 256
    }

    pub open spec fn valid(&self) -> bool {
        self.spec_flags() % 2 == 1
    }

    /// The entry for frame `ppn` with `flags`.
    pub fn new(ppn: PhysPageNum, flags: u8) -> (r: PageTableEntry)
        requires
            ppn.0 < PPN_LIMIT,
        ensures
            r == pte_of(ppn.0 as int, flags as int),
            r.spec_ppn() == ppn.0,
            r.spec_flags() == flags,
    {
        proof {
            lemma_pte_fields(ppn.0 as int, flags as int);
        }
        PageTableEntry { bits: ppn.0 as u64 * 1024 + flags as u64 }
    }

    /// The entry with no frame and no flag.
    pub fn empty() -> (r: PageTableEntry)
        ensures
            r.bits == 0,
            !r.valid(),
    {
        PageTableEntry { bits: 0 }
    }

    /// The frame number.
    pub fn ppn(&self) -> (r: PhysPageNum)
        ensures
            r.0 == self.spec_ppn() as usize,
    {
        PhysPageNum(#[verifier::truncate] (((self.bits / 1024) % 0x1000_0000_0000) as usize))
    }

    /// The flag bits.
    pub fn flags(&self) -> (r: u8)
        ensures
            r == self.spec_flags(),
    {
        (self.bits % 256) as u8
    }

    pub fn is_valid(&self) -> (r: bool)
        ensures
            r == self.valid(),
    {
        self.bits % 256 % 2 == 1
    }

    pub fn readable(&self) -> (r: bool)
        ensures
            r == ((self.spec_flags() / 2) % 2 == 1),
    {
        (self.bits % 256 / 2) % 2 == 1
    }

    pub fn writable(&self) -> (r: bool)
        ensures
            r == ((self.spec_flags() / 4) % 2 == 1),
    {
        (self.bits % 256 / 4) % 2 == 1
    }

    pub fn executable(&self) -> (r: bool)
        ensures
            r == ((self.spec_flags() / 8) % 2 == 1),
    {
        (self.bits % 256 / 8) % 2 == 1
    }
}

pub open spec fn slot(k: int, s: int) -> int {
    k * 512 + s
}

proof fn lemma_slot(k: int, s: int, n: int)
    requires
        0 <= k < n,
        0 <= s < 512,
    ensures
        0 <= slot(k, s) < n * 512,
{
    assert(0 <= k * 512 + s < n * 512) by (nonlinear_arith)
        requires
            0 <= k < n,
            0 <= s < 512,
    ;
}

proof fn lemma_slot_injective(k: int, s: int, k2: int, s2: int)
    requires
        0 <= s < 512,
        0 <= s2 < 512,
        slot(k, s) == slot(k2, s2),
    ensures
        k == k2,
        s == s2,
{
    assert(k == k2 && s == s2) by (nonlinear_arith)
        requires
            0 <= s < 512,
            0 <= s2 < 512,
            k * 512 + s == k2 * 512 + s2,
    ;
}

/// An SV39 page table: a three-level radix tree of 512-entry nodes. Node
/// `k` lives in frame `frames[k]`; its entries are `entries[512 k ..
/// 512 k + 512]`, and for a valid entry of an inner node the matching
/// element of `children` is the node it points to. Node 0 is the root.
pub struct SV39PageTable {
    root_ppn: PhysPageNum,
    entries: Vec<PageTableEntry>,
    children: Vec<usize>,
    frames: Vec<FrameTracker>,
    /// Each node's depth: 0 for the root, 2 for the leaves.
    level: Ghost<Seq<int>>,
    /// The indices on the path to each node, as one number in base 512.
    prefix: Ghost<Seq<int>>,
}

impl SV39PageTable {
    pub closed spec fn nodes(&self) -> int {
        self.frames@.len() as int
    }

    pub closed spec fn entry(&self, k: int, s: int) -> PageTableEntry {
        self.entries@[slot(k, s)]
    }

    pub closed spec fn child(&self, k: int, s: int) -> int {
        self.children@[slot(k, s)] as int
    }

    closed spec fn child_ok(&self, k: int, s: int) -> bool {
        let c = self.child(k, s);
        &&& 0 < c < self.nodes()
        &&& self.level@[c] == self.level@[k] + 1
        &&& self.prefix@[c] == self.prefix@[k] * 512 + s
    }

    pub closed spec fn wf(&self) -> bool {
        let n = self.nodes();
        &&& n >= 1
        &&& n * 512 <= usize::MAX
        &&& self.entries@.len() == n * 512
        &&& self.children@.len() == n * 512
        &&& self.level@.len() == n
        &&& self.prefix@.len() == n
        &&& self.level@[0] == 0
        &&& self.prefix@[0] == 0
        &&& self.root_ppn == self.frames@[0].ppn
        &&& forall|k: int| 0 <= k < n ==> 0 <= #[trigger] self.level@[k] <= 2
        &&& forall|k: int, s: int|
            0 <= k < n && 0 <= s < 512 && self.level@[k] < 2 && (#[trigger] self.entry(k, s)).valid()
                ==> self.child_ok(k, s)
    }

    /// The frame of the root node.
    pub closed spec fn root(&self) -> PhysPageNum {
        self.root_ppn
    }

    /// The frames that hold the table's nodes.
    pub closed spec fn node_frames(&self) -> Seq<PhysPageNum> {
        self.frames@.map_values(|t: FrameTracker| t.ppn)
    }

    /// The leaf entry that the hardware walk finds for `vpn`, if it is valid.
    pub open spec fn walk(&self, vpn: int) -> Option<PageTableEntry> {
        let i0 = vpn_index(vpn, 0);
        let i1 = vpn_index(vpn, 1);
        let i2 = vpn_index(vpn, 2);
        if !self.entry(0, i0).valid() {
            None
        } else {
            let n1 = self.child(0, i0);
            if !self.entry(n1, i1).valid() {
                None
            } else {
                let n2 = self.child(n1, i1);
                if !self.entry(n2, i2).valid() {
                    None
                } else {
                    Some(self.entry(n2, i2))
                }
            }
        }
    }

    /// The mapping as a function of virtual page numbers.
    pub open spec fn mapping(&self) -> Map<int, PageTableEntry> {
        Map::new(
            |v: int| 0 <= v < VPN_LIMIT && self.walk(v).is_some(),
            |v: int| self.walk(v).unwrap(),
        )
    }

    /// Every node's frame is allocated in `pool`.
    pub open spec fn frames_allocated_in(&self, pool: &FramePool) -> bool {
        forall|k: int|
            0 <= k < self.node_frames().len() ==> pool.allocator.is_allocated(
                (#[trigger] self.node_frames()[k]).0 as int,
            )
    }

    /// The node frames of `old` are a prefix of those of `self`, and each
    /// added one was free in `pool`.
    pub open spec fn nodes_grown_from(&self, old: &SV39PageTable, pool: &FramePool) -> bool {
        &&& self.node_frames().len() >= old.node_frames().len()
        &&& forall|k: int| 0 <= k < old.node_frames().len() ==> #[trigger] self.node_frames()[k] == old.node_frames()[k]
        &&& forall|k: int|
            old.node_frames().len() <= k < self.node_frames().len() ==> pool.allocator.is_free(
                (#[trigger] self.node_frames()[k]).0 as int,
            )
    }

    /// How many inner nodes the walk for `vpn` lacks, and `map` would create.
    pub open spec fn nodes_needed(&self, vpn: int) -> int {
        if !self.entry(0, vpn_index(vpn, 0)).valid() {
            2
        } else if !self.entry(self.child(0, vpn_index(vpn, 0)), vpn_index(vpn, 1)).valid() {
            1
        } else {
            0
        }
    }

    /// `self` is `old` with nodes appended and possibly entries changed.
    closed spec fn extends(&self, old: &SV39PageTable) -> bool {
        &&& self.nodes() >= old.nodes()
        &&& self.root_ppn == old.root_ppn
        &&& forall|k: int| 0 <= k < old.nodes() ==> self.level@[k] == old.level@[k]
        &&& forall|k: int| 0 <= k < old.nodes() ==> self.prefix@[k] == old.prefix@[k]
        &&& forall|k: int| 0 <= k < old.nodes() ==> self.frames@[k] == old.frames@[k]
    }

    /// The walk for `vpn` only reads valid inner entries that point to
    /// nodes one level down, with the matching path.
    proof fn lemma_walk_shape(&self, vpn: int)
        requires
            self.wf(),
            0 <= vpn < VPN_LIMIT,
        ensures
            self.entry(0, vpn_index(vpn, 0)).valid() ==> {
                let n1 = self.child(0, vpn_index(vpn, 0));
                &&& 0 < n1 < self.nodes()
                &&& self.level@[n1] == 1
                &&& self.prefix@[n1] == vpn_index(vpn, 0)
                &&& self.entry(n1, vpn_index(vpn, 1)).valid() ==> {
                    let n2 = self.child(n1, vpn_index(vpn, 1));
                    &&& 0 < n2 < self.nodes()
                    &&& self.level@[n2] == 2
                    &&& self.prefix@[n2] == vpn_index(vpn, 0) * 512 + vpn_index(vpn, 1)
                }
            },
    {
        let i0 = vpn_index(vpn, 0);
        let i1 = vpn_index(vpn, 1);
        if self.entry(0, i0).valid() {
            assert(self.child_ok(0, i0));
            let n1 = self.child(0, i0);
            if self.entry(n1, i1).valid() {
                assert(self.child_ok(n1, i1));
            }
        }
    }
}


/// What the pool promises across a table operation: still well formed,
/// the same memory, allocated frames stay allocated, and the bytes of every
/// frame that was not free are kept.
pub open spec fn pool_kept(a: &FramePool, b: &FramePool) -> bool {
    &&& b.wf()
    &&& b.memory.first_ppn == a.memory.first_ppn
    &&& b.memory.npages == a.memory.npages
    &&& forall|p: int| a.allocator.is_allocated(p) ==> b.allocator.is_allocated(p)
    &&& forall|p: int|
        a.memory.covers(p) && !a.allocator.is_free(p) ==> #[trigger] b.same_frame(a, p)
}

pub proof fn lemma_pool_kept_trans(a: &FramePool, b: &FramePool, c: &FramePool)
    requires
        pool_kept(a, b),
        pool_kept(b, c),
        forall|p: int| !a.allocator.is_free(p) ==> !b.allocator.is_free(p),
    ensures
        pool_kept(a, c),
{
    assert forall|p: int| a.memory.covers(p) && !a.allocator.is_free(p) implies #[trigger] c.same_frame(a, p) by {
        assert(b.same_frame(a, p));
        assert(c.same_frame(b, p));
    }
}

impl SV39PageTable {
    /// Appends a node held in frame `t`, with no valid entry.
    fn push_node(&mut self, t: FrameTracker, lvl: Ghost<int>, pre: Ghost<int>)
        requires
            old(self).entries@.len() == old(self).nodes() * 512,
            old(self).children@.len() == old(self).nodes() * 512,
            old(self).level@.len() == old(self).nodes(),
            old(self).prefix@.len() == old(self).nodes(),
        ensures
            final(self).nodes() == old(self).nodes() + 1,
            final(self).root_ppn == old(self).root_ppn,
            final(self).entries@.len() == final(self).nodes() * 512,
            final(self).children@.len() == final(self).nodes() * 512,
            final(self).nodes() * 512 <= usize::MAX,
            final(self).level@ == old(self).level@.push(lvl@),
            final(self).prefix@ == old(self).prefix@.push(pre@),
            final(self).frames@ == old(self).frames@.push(t),
            forall|j: int| 0 <= j < old(self).entries@.len() ==> final(self).entries@[j] == old(self).entries@[j],
            forall|j: int| 0 <= j < old(self).children@.len() ==> final(self).children@[j] == old(self).children@[j],
            forall|s: int| 0 <= s < 512 ==> !(#[trigger] final(self).entry(old(self).nodes(), s)).valid(),
    {
        let ghost n = self.nodes();
        let ghost base = self.entries@.len();
        let mut i: usize = 0;
        while i < PTE_PER_PAGE
            invariant
                i <= 512,
                self.frames@ == old(self).frames@,
                self.root_ppn == old(self).root_ppn,
                self.level@ == old(self).level@,
                self.prefix@ == old(self).prefix@,
                base == old(self).entries@.len(),
                self.entries@.len() == base + i,
                self.children@.len() == base + i,
                forall|j: int| 0 <= j < base ==> self.entries@[j] == old(self).entries@[j],
                forall|j: int| 0 <= j < base ==> self.children@[j] == old(self).children@[j],
                forall|j: int| base <= j < base + i ==> !self.entries@[j].valid(),
            decreases 512 - i,
        {
            self.entries.push(PageTableEntry::empty());
            self.children.push(0);
            i = i + 1;
        }
        let _len = self.entries.len();
        self.frames.push(t);
        self.level = Ghost(self.level@.push(lvl@));
        self.prefix = Ghost(self.prefix@.push(pre@));
        proof {
            assert forall|s: int| 0 <= s < 512 implies !(#[trigger] self.entry(n, s)).valid() by {
                assert(slot(n, s) == base + s);
            }
        }
    }

    /// A table with an empty root node in a fresh frame.
    pub fn new(pool: &mut FramePool) -> (r: SV39PageTable)
        requires
            old(pool).wf(),
            old(pool).allocator.free_count() >= 1,
        ensures
            r.wf(),
            r.mapping() == Map::<int, PageTableEntry>::empty(),
            pool_kept(old(pool), final(pool)),
            old(pool).allocator.is_free(r.root().0 as int),
            r.frames_allocated_in(final(pool)),
            r.node_frames() == seq![r.root()],
    {
        let t = frame_alloc(pool).unwrap();
        let root_ppn = t.ppn;
        let mut pt = SV39PageTable {
            root_ppn,
            entries: Vec::new(),
            children: Vec::new(),
            frames: Vec::new(),
            level: Ghost(Seq::empty()),
            prefix: Ghost(Seq::empty()),
        };
        pt.push_node(t, Ghost(0), Ghost(0));
        proof {
            assert(pt.frames@ =~= seq![t]);
            assert(pt.level@ =~= seq![0int]);
            assert(pt.prefix@ =~= seq![0int]);
            assert forall|k: int, s: int|
                0 <= k < pt.nodes() && 0 <= s < 512 && pt.level@[k] < 2 && (#[trigger] pt.entry(k, s)).valid()
                implies pt.child_ok(k, s) by {
                assert(k == 0);
            }
            assert(pt.mapping() =~= Map::<int, PageTableEntry>::empty()) by {
                assert forall|v: int| 0 <= v < VPN_LIMIT implies pt.walk(v).is_none() by {
                    assert(0 <= vpn_index(v, 0) < 512);
                }
            }
            assert(pt.node_frames() =~= seq![root_ppn]);
            assert(pool.allocator.is_allocated(root_ppn.0 as int));
            assert forall|p: int| old(pool).memory.covers(p) && !old(pool).allocator.is_free(p)
                implies #[trigger] pool.same_frame(old(pool), p) by {}
        }
        pt
    }

    /// The node that entry `s` of inner node `k` points to, creating it in a
    /// fresh frame when the entry is not valid yet. No walk changes.
    fn child_or_create(&mut self, k: usize, s: usize, pool: &mut FramePool) -> (c: usize)
        requires
            old(self).wf(),
            k < old(self).nodes(),
            s < 512,
            old(self).level@[k as int] < 2,
            old(pool).wf(),
            old(self).entry(k as int, s as int).valid() || old(pool).allocator.free_count() >= 1,
            old(self).frames_allocated_in(old(pool)),
        ensures
            final(self).wf(),
            final(self).extends(old(self)),
            final(self).entry(k as int, s as int).valid(),
            c == final(self).child(k as int, s as int),
            final(self).child_ok(k as int, s as int),
            forall|k2: int, s2: int|
                0 <= k2 < old(self).nodes() && 0 <= s2 < 512 && (k2 != k || s2 != s) ==> {
                    &&& #[trigger] final(self).entry(k2, s2) == old(self).entry(k2, s2)
                    &&& final(self).child(k2, s2) == old(self).child(k2, s2)
                },
            old(self).entry(k as int, s as int).valid() ==> final(self).child(k as int, s as int)
                == old(self).child(k as int, s as int),
            forall|v: int| 0 <= v < VPN_LIMIT ==> #[trigger] final(self).walk(v) == old(self).walk(v),
            pool_kept(old(pool), final(pool)),
            forall|p: int| !old(pool).allocator.is_free(p) ==> !final(pool).allocator.is_free(p),
            final(pool).allocator.free_count() + 1 >= old(pool).allocator.free_count(),
            old(self).entry(k as int, s as int).valid() ==> final(pool).allocator.free_count()
                == old(pool).allocator.free_count(),
            !old(self).entry(k as int, s as int).valid() ==> final(pool).allocator.free_count() + 1
                == old(pool).allocator.free_count(),
            !old(self).entry(k as int, s as int).valid() ==> forall|s2: int|
                0 <= s2 < 512 ==> !(#[trigger] final(self).entry(c as int, s2)).valid(),
            forall|p: int| final(pool).allocator.is_free(p) ==> old(pool).allocator.is_free(p),
            final(self).frames_allocated_in(final(pool)),
            final(self).nodes_grown_from(old(self), old(pool)),
    {
        let ghost n = self.nodes();
        proof {
            lemma_slot(k as int, s as int, n);
        }
        let pos = k * PTE_PER_PAGE + s;
        if self.entries[pos].is_valid() {
            proof {
                assert(self.entry(k as int, s as int).valid());
                assert(self.child_ok(k as int, s as int));
                assert forall|p: int| old(pool).memory.covers(p) && !old(pool).allocator.is_free(p)
                    implies #[trigger] pool.same_frame(old(pool), p) by {}
            }
            assert(self.node_frames() == old(self).node_frames());
            return self.children[pos];
        }
        let t = frame_alloc(pool).unwrap();
        let ghost new_ppn = t.ppn;
        let new_ppn_exec = t.ppn;
        proof {
            assert(pool.allocator.is_allocated(new_ppn.0 as int));
            assert forall|kk: int| 0 <= kk < self.node_frames().len() implies pool.allocator.is_allocated(
                (#[trigger] self.node_frames()[kk]).0 as int) by {
                assert(old(pool).allocator.is_allocated(self.node_frames()[kk].0 as int));
            }
        }
        let c = self.frames.len();
        let ghost lvl = self.level@[k as int] + 1;
        let ghost pre = self.prefix@[k as int] * 512 + s;
        let ghost mid_nodes = self.nodes();
        self.push_node(t, Ghost(lvl), Ghost(pre));
        let ghost t_mid = *self;
        proof {
            lemma_slot(k as int, s as int, n + 1);
        }
        self.entries.set(pos, PageTableEntry::new(new_ppn_exec, PTE_V));
        self.children.set(pos, c);
        proof {
            let o = old(self);
            assert(self.extends(o));
            assert forall|k2: int, s2: int|
                0 <= k2 < o.nodes() && 0 <= s2 < 512 && (k2 != k || s2 != s) implies {
                    &&& #[trigger] self.entry(k2, s2) == o.entry(k2, s2)
                    &&& self.child(k2, s2) == o.child(k2, s2)
                } by {
                lemma_slot(k2, s2, n);
                if slot(k2, s2) == slot(k as int, s as int) {
                    lemma_slot_injective(k2, s2, k as int, s as int);
                }
            }
            assert forall|s2: int| 0 <= s2 < 512 implies !(#[trigger] self.entry(c as int, s2)).valid() by {
                lemma_slot(c as int, s2, n + 1);
                assert(c == n);
                assert(!t_mid.entry(n, s2).valid());
                if slot(c as int, s2) == slot(k as int, s as int) {
                    lemma_slot_injective(c as int, s2, k as int, s as int);
                }
                assert(self.entry(c as int, s2) == t_mid.entry(n, s2));
            }
            assert forall|k2: int| 0 <= k2 < self.nodes() implies 0 <= #[trigger] self.level@[k2] <= 2 by {
                if k2 < n {
                    assert(o.level@[k2] <= 2);
                }
            }
            assert forall|k2: int, s2: int|
                0 <= k2 < self.nodes() && 0 <= s2 < 512 && self.level@[k2] < 2 && (#[trigger] self.entry(k2, s2)).valid()
                implies self.child_ok(k2, s2) by {
                if k2 == k && s2 == s {
                } else if k2 < n {
                    assert(o.entry(k2, s2).valid());
                    assert(o.child_ok(k2, s2));
                } else {
                    assert(k2 == c);
                }
            }
            assert(self.wf());
            assert forall|v: int| 0 <= v < VPN_LIMIT implies #[trigger] self.walk(v) == o.walk(v) by {
                o.lemma_walk_shape(v);
                let i0 = vpn_index(v, 0);
                let i1 = vpn_index(v, 1);
                let i2 = vpn_index(v, 2);
                assert(0 <= i0 < 512 && 0 <= i1 < 512 && 0 <= i2 < 512);
                if o.entry(0, i0).valid() {
                    let n1 = o.child(0, i0);
                    if o.entry(n1, i1).valid() {
                        let n2 = o.child(n1, i1);
                        assert(n2 != k as int || i2 != s as int);
                    }
                }
            }
            assert forall|kk: int| 0 <= kk < self.node_frames().len() implies pool.allocator.is_allocated(
                (#[trigger] self.node_frames()[kk]).0 as int) by {
                if kk < n {
                    assert(self.node_frames()[kk] == old(self).node_frames()[kk]);
                } else {
                    assert(self.node_frames()[kk] == new_ppn);
                }
            }
            assert forall|kk: int| 0 <= kk < old(self).node_frames().len() implies #[trigger] self.node_frames()[kk]
                == old(self).node_frames()[kk] by {
                assert(self.frames@[kk] == old(self).frames@[kk]);
            }
            assert forall|kk: int| old(self).node_frames().len() <= kk < self.node_frames().len() implies
                old(pool).allocator.is_free((#[trigger] self.node_frames()[kk]).0 as int) by {
                assert(self.node_frames()[kk] == new_ppn);
            }
            assert forall|p: int| !old(pool).allocator.is_free(p) implies !pool.allocator.is_free(p) by {
                if p == new_ppn.0 {
                } else {
                }
            }
        }
        c
    }

    /// Where the leaf entry for `vpn` lies, when both inner entries on its
    /// walk are valid.
    fn find_pte(&self, vpn: VirtPageNum) -> (r: Option<usize>)
        requires
            self.wf(),
            vpn.0 < VPN_LIMIT,
        ensures
            r matches Some(pos) ==> {
                let n1 = self.child(0, vpn_index(vpn.0 as int, 0));
                let n2 = self.child(n1, vpn_index(vpn.0 as int, 1));
                &&& self.entry(0, vpn_index(vpn.0 as int, 0)).valid()
                &&& self.entry(n1, vpn_index(vpn.0 as int, 1)).valid()
                &&& pos == slot(n2, vpn_index(vpn.0 as int, 2))
                &&& pos < self.entries@.len()
                &&& self.level@[n2] == 2
                &&& 0 < n2 < self.nodes()
            },
            r.is_none() ==> self.walk(vpn.0 as int).is_none(),
    {
        let idx = vpn.indexes();
        proof {
            self.lemma_walk_shape(vpn.0 as int);
            lemma_slot(0, idx[0] as int, self.nodes());
        }
        let p0 = idx[0];
        if !self.entries[p0].is_valid() {
            return None;
        }
        let n1 = self.children[p0];
        proof {
            lemma_slot(n1 as int, idx[1] as int, self.nodes());
        }
        let p1 = n1 * PTE_PER_PAGE + idx[1];
        if !self.entries[p1].is_valid() {
            return None;
        }
        let n2 = self.children[p1];
        proof {
            lemma_slot(n2 as int, idx[2] as int, self.nodes());
        }
        Some(n2 * PTE_PER_PAGE + idx[2])
    }

    /// The kernel's table: on this architecture built as any other table.
    pub fn new_kernel(pool: &mut FramePool) -> (r: SV39PageTable)
        requires
            old(pool).wf(),
            old(pool).allocator.free_count() >= 1,
        ensures
            r.wf(),
            r.mapping() == Map::<int, PageTableEntry>::empty(),
            pool_kept(old(pool), final(pool)),
            old(pool).allocator.is_free(r.root().0 as int),
            r.frames_allocated_in(final(pool)),
            r.node_frames() == seq![r.root()],
    {
        SV39PageTable::new(pool)
    }

    /// The leaf entry for `vpn`, when it is valid.
    pub fn translate(&self, vpn: VirtPageNum) -> (r: Option<PageTableEntry>)
        requires
            self.wf(),
            vpn.0 < VPN_LIMIT,
        ensures
            r == self.walk(vpn.0 as int),
    {
        match self.find_pte(vpn) {
            Some(pos) => {
                let e = self.entries[pos];
                if e.is_valid() {
                    Some(e)
                } else {
                    None
                }
            },
            None => None,
        }
    }

    /// The physical address that `va` maps to, when its page is mapped.
    pub fn translate_va(&self, va: VirtAddr) -> (r: Option<PhysAddr>)
        requires
            self.wf(),
            va.0 < VA_LIMIT,
        ensures
            r.is_some() == self.walk(va.0 as int / PAGE_SIZE as int).is_some(),
            r matches Some(pa) ==> pa.0 == self.walk(va.0 as int / PAGE_SIZE as int).unwrap().spec_ppn()
                * PAGE_SIZE + va.0 % PAGE_SIZE as u64,
    {
        let vpn = va.floor();
        match self.translate(vpn) {
            Some(e) => {
                let ppn = (e.bits / 1024) % 0x1000_0000_0000;
                Some(PhysAddr(ppn * 0x1000 + va.0 % 0x1000))
            },
            None => None,
        }
    }

    /// Maps `vpn` to frame `ppn` with `perm`, creating inner nodes as the
    /// walk needs them; every other page keeps its mapping.
    pub fn map(&mut self, vpn: VirtPageNum, ppn: PhysPageNum, perm: MapPermission, pool: &mut FramePool)
        requires
            old(self).wf(),
            vpn.0 < VPN_LIMIT,
            ppn.0 < PPN_LIMIT,
            perm.wf(),
            old(self).walk(vpn.0 as int).is_none(),
            old(pool).wf(),
            old(pool).allocator.free_count() >= old(self).nodes_needed(vpn.0 as int),
            old(self).frames_allocated_in(old(pool)),
        ensures
            final(self).wf(),
            final(self).root() == old(self).root(),
            final(self).walk(vpn.0 as int) == Some(pte_of(ppn.0 as int, perm.bits + PTE_V)),
            forall|v: int|
                0 <= v < VPN_LIMIT && v != vpn.0 ==> #[trigger] final(self).walk(v) == old(self).walk(v),
            final(self).mapping() == old(self).mapping().insert(vpn.0 as int, pte_of(ppn.0 as int, perm.bits + PTE_V)),
            pool_kept(old(pool), final(pool)),
            forall|p: int| !old(pool).allocator.is_free(p) ==> !final(pool).allocator.is_free(p),
            final(pool).allocator.free_count() + old(self).nodes_needed(vpn.0 as int)
                == old(pool).allocator.free_count(),
            forall|p: int| final(pool).allocator.is_free(p) ==> old(pool).allocator.is_free(p),
            final(self).frames_allocated_in(final(pool)),
            final(self).nodes_grown_from(old(self), old(pool)),
    {
        let idx = vpn.indexes();
        let ghost pool0 = *pool;
        proof {
            self.lemma_walk_shape(vpn.0 as int);
        }
        let n1 = self.child_or_create(0, idx[0], pool);
        let ghost pool1 = *pool;
        let ghost t1 = *self;
        let n2 = self.child_or_create(n1, idx[1], pool);
        proof {
            if !old(self).entry(0, idx[0] as int).valid() {
                assert(!t1.entry(n1 as int, idx[1] as int).valid());
            } else {
                assert(t1.entry(n1 as int, idx[1] as int) == old(self).entry(n1 as int, idx[1] as int));
            }
            lemma_pool_kept_trans(&pool0, &pool1, pool);
            lemma_slot(n2 as int, idx[2] as int, self.nodes());
        }
        let pos = n2 * PTE_PER_PAGE + idx[2];
        let e = PageTableEntry::new(ppn, perm.bits + PTE_V);
        let ghost t2 = *self;
        self.entries.set(pos, e);
        proof {
            let v0 = vpn.0 as int;
            assert(t2.level@[n2 as int] == 2);
            assert(t2.entry(0, idx[0] as int) == t1.entry(0, idx[0] as int));
            assert(t2.child(0, idx[0] as int) == t1.child(0, idx[0] as int));
            assert(self.walk(v0) == Some(e));
            assert forall|k2: int| 0 <= k2 < self.nodes() implies 0 <= #[trigger] self.level@[k2] <= 2 by {
                assert(t2.level@[k2] <= 2);
            }
            assert forall|k2: int, s2: int|
                0 <= k2 < self.nodes() && 0 <= s2 < 512 && self.level@[k2] < 2 && (#[trigger] self.entry(k2, s2)).valid()
                implies self.child_ok(k2, s2) by {
                lemma_slot(k2, s2, self.nodes());
                if slot(k2, s2) == pos {
                    lemma_slot_injective(k2, s2, n2 as int, idx[2] as int);
                }
                assert(t2.entry(k2, s2).valid());
                assert(t2.child_ok(k2, s2));
            }
            assert(self.wf());
            assert forall|v: int| 0 <= v < VPN_LIMIT && v != v0 implies #[trigger] self.walk(v) == old(self).walk(v) by {
                t2.lemma_walk_shape(v);
                assert(t2.walk(v) == old(self).walk(v));
                let i0 = vpn_index(v, 0);
                let i1 = vpn_index(v, 1);
                let i2 = vpn_index(v, 2);
                assert(0 <= i0 < 512 && 0 <= i1 < 512 && 0 <= i2 < 512);
                lemma_slot(0, i0, self.nodes());
                if slot(0, i0) == pos {
                    lemma_slot_injective(0, i0, n2 as int, idx[2] as int);
                }
                if t2.entry(0, i0).valid() {
                    let m1 = t2.child(0, i0);
                    lemma_slot(m1, i1, self.nodes());
                    if slot(m1, i1) == pos {
                        lemma_slot_injective(m1, i1, n2 as int, idx[2] as int);
                    }
                    if t2.entry(m1, i1).valid() {
                        let m2 = t2.child(m1, i1);
                        lemma_slot(m2, i2, self.nodes());
                        if slot(m2, i2) == pos {
                            lemma_slot_injective(m2, i2, n2 as int, idx[2] as int);
                            t2.lemma_walk_shape(v0);
                            assert(t2.prefix@[m2] == t2.prefix@[n2 as int]);
                            assert(i0 * 512 + i1 == vpn_index(v0, 0) * 512 + vpn_index(v0, 1));
                            assert(i0 == vpn_index(v0, 0) && i1 == vpn_index(v0, 1)) by (nonlinear_arith)
                                requires
                                    i0 * 512 + i1 == vpn_index(v0, 0) * 512 + vpn_index(v0, 1),
                                    0 <= i1 < 512,
                                    0 <= vpn_index(v0, 1) < 512,
                            ;
                            lemma_indexes_determine_vpn(v, v0);
                        }
                    }
                }
            }
            assert(self.mapping() =~= old(self).mapping().insert(v0, e));
            assert forall|kk: int| 0 <= kk < self.node_frames().len() implies pool.allocator.is_allocated(
                (#[trigger] self.node_frames()[kk]).0 as int) by {
                assert(self.node_frames()[kk] == t2.node_frames()[kk]);
            }
            assert forall|kk: int| 0 <= kk < old(self).node_frames().len() implies #[trigger] self.node_frames()[kk]
                == old(self).node_frames()[kk] by {
                assert(self.node_frames()[kk] == t2.node_frames()[kk]);
                assert(t2.node_frames()[kk] == t1.node_frames()[kk]);
            }
            assert forall|kk: int| old(self).node_frames().len() <= kk < self.node_frames().len() implies
                pool0.allocator.is_free((#[trigger] self.node_frames()[kk]).0 as int) by {
                assert(self.node_frames()[kk] == t2.node_frames()[kk]);
                if kk < t1.node_frames().len() {
                    assert(t2.node_frames()[kk] == t1.node_frames()[kk]);
                } else {
                    assert(pool1.allocator.is_free(t2.node_frames()[kk].0 as int));
                }
            }
        }
    }

    /// Removes the mapping of `vpn`; every other page keeps its mapping.
    pub fn unmap(&mut self, vpn: VirtPageNum)
        requires
            old(self).wf(),
            vpn.0 < VPN_LIMIT,
            old(self).walk(vpn.0 as int).is_some(),
        ensures
            final(self).wf(),
            final(self).root() == old(self).root(),
            final(self).node_frames() == old(self).node_frames(),
            final(self).walk(vpn.0 as int).is_none(),
            forall|v: int|
                0 <= v < VPN_LIMIT && v != vpn.0 ==> #[trigger] final(self).walk(v) == old(self).walk(v),
            final(self).mapping() == old(self).mapping().remove(vpn.0 as int),
    {
        let pos = self.find_pte(vpn).unwrap();
        let ghost t2 = *self;
        let ghost n2 = self.child(self.child(0, vpn_index(vpn.0 as int, 0)), vpn_index(vpn.0 as int, 1));
        self.entries.set(pos, PageTableEntry::empty());
        proof {
            let v0 = vpn.0 as int;
            let idx2 = vpn_index(v0, 2);
            assert(0 <= idx2 < 512);
            assert forall|k2: int, s2: int|
                0 <= k2 < self.nodes() && 0 <= s2 < 512 && self.level@[k2] < 2 && (#[trigger] self.entry(k2, s2)).valid()
                implies self.child_ok(k2, s2) by {
                lemma_slot(k2, s2, self.nodes());
                assert(t2.entry(k2, s2).valid());
                assert(t2.child_ok(k2, s2));
            }
            assert forall|k2: int| 0 <= k2 < self.nodes() implies 0 <= #[trigger] self.level@[k2] <= 2 by {
                assert(t2.level@[k2] <= 2);
            }
            assert(self.wf());
            t2.lemma_walk_shape(v0);
            assert forall|v: int| 0 <= v < VPN_LIMIT && v != v0 implies #[trigger] self.walk(v) == old(self).walk(v) by {
                t2.lemma_walk_shape(v);
                let i0 = vpn_index(v, 0);
                let i1 = vpn_index(v, 1);
                let i2 = vpn_index(v, 2);
                assert(0 <= i0 < 512 && 0 <= i1 < 512 && 0 <= i2 < 512);
                lemma_slot(0, i0, self.nodes());
                if slot(0, i0) == pos {
                    lemma_slot_injective(0, i0, n2, idx2);
                }
                if t2.entry(0, i0).valid() {
                    let m1 = t2.child(0, i0);
                    lemma_slot(m1, i1, self.nodes());
                    if slot(m1, i1) == pos {
                        lemma_slot_injective(m1, i1, n2, idx2);
                    }
                    if t2.entry(m1, i1).valid() {
                        let m2 = t2.child(m1, i1);
                        lemma_slot(m2, i2, self.nodes());
                        if slot(m2, i2) == pos {
                            lemma_slot_injective(m2, i2, n2, idx2);
                            assert(t2.prefix@[m2] == t2.prefix@[n2]);
                            assert(i0 == vpn_index(v0, 0) && i1 == vpn_index(v0, 1)) by (nonlinear_arith)
                                requires
                                    i0 * 512 + i1 == vpn_index(v0, 0) * 512 + vpn_index(v0, 1),
                                    0 <= i1 < 512,
                                    0 <= vpn_index(v0, 1) < 512,
                            ;
                            lemma_indexes_determine_vpn(v, v0);
                        }
                    }
                }
            }
            assert(self.mapping() =~= old(self).mapping().remove(v0));
        }
    }

    /// The value of the hardware's address-translation register for this
    /// table: SV39 mode in the top bits and the root frame.
    pub fn token(&self) -> (r: u64)
        requires
            self.wf(),
            self.root().0 < PPN_LIMIT,
        ensures
            r == 0x8000_0000_0000_0000 + self.root().0,
    {
        0x8000_0000_0000_0000u64 + self.root_ppn.0 as u64
    }
}

/// What the kernel needs of an architecture's page table.
pub trait PageTable: Sized {
    spec fn table_wf(&self) -> bool;

    /// The valid leaf entry for page `vpn`, if any.
    spec fn entry_of(&self, vpn: int) -> Option<PageTableEntry>;

    /// The table's own frames are allocated in `pool`.
    spec fn owned_in(&self, pool: &FramePool) -> bool;

    spec fn root_frame(&self) -> PhysPageNum;

    /// How many free frames mapping page `vpn` takes.
    spec fn frames_needed(&self, vpn: int) -> int;

    /// An empty table in fresh frames.
    fn new(pool: &mut FramePool) -> (r: Self)
        requires
            old(pool).wf(),
            old(pool).allocator.free_count() >= 1,
        ensures
            r.table_wf(),
            forall|v: int| 0 <= v < VPN_LIMIT ==> #[trigger] r.entry_of(v).is_none(),
            r.owned_in(final(pool)),
            pool_kept(old(pool), final(pool)),
    ;

    /// Maps the unmapped page `vpn` to frame `ppn` with `perm`.
    fn map(&mut self, vpn: VirtPageNum, ppn: PhysPageNum, perm: MapPermission, pool: &mut FramePool)
        requires
            old(self).table_wf(),
            vpn.0 < VPN_LIMIT,
            ppn.0 < PPN_LIMIT,
            perm.wf(),
            old(self).entry_of(vpn.0 as int).is_none(),
            old(pool).wf(),
            old(pool).allocator.free_count() >= old(self).frames_needed(vpn.0 as int),
            old(self).owned_in(old(pool)),
        ensures
            final(self).table_wf(),
            final(self).entry_of(vpn.0 as int) == Some(pte_of(ppn.0 as int, perm.bits + PTE_V)),
            forall|v: int|
                0 <= v < VPN_LIMIT && v != vpn.0 ==> #[trigger] final(self).entry_of(v) == old(self).entry_of(v),
            final(self).owned_in(final(pool)),
            pool_kept(old(pool), final(pool)),
    ;

    /// Removes the mapping of the mapped page `vpn`.
    fn unmap(&mut self, vpn: VirtPageNum)
        requires
            old(self).table_wf(),
            vpn.0 < VPN_LIMIT,
            old(self).entry_of(vpn.0 as int).is_some(),
        ensures
            final(self).table_wf(),
            final(self).entry_of(vpn.0 as int).is_none(),
            forall|v: int|
                0 <= v < VPN_LIMIT && v != vpn.0 ==> #[trigger] final(self).entry_of(v) == old(self).entry_of(v),
    ;

    fn translate(&self, vpn: VirtPageNum) -> (r: Option<PageTableEntry>)
        requires
            self.table_wf(),
            vpn.0 < VPN_LIMIT,
        ensures
            r == self.entry_of(vpn.0 as int),
    ;

    /// The hardware's register value for this table.
    fn token(&self) -> (r: u64)
        requires
            self.table_wf(),
            self.root_frame().0 < PPN_LIMIT,
        ensures
            r == 0x8000_0000_0000_0000 + self.root_frame().0,
    ;
}

impl PageTable for SV39PageTable {
    open spec fn table_wf(&self) -> bool {
        self.wf()
    }

    open spec fn entry_of(&self, vpn: int) -> Option<PageTableEntry> {
        self.walk(vpn)
    }

    open spec fn owned_in(&self, pool: &FramePool) -> bool {
        self.frames_allocated_in(pool)
    }

    open spec fn root_frame(&self) -> PhysPageNum {
        self.root()
    }

    open spec fn frames_needed(&self, vpn: int) -> int {
        self.nodes_needed(vpn)
    }

    fn new(pool: &mut FramePool) -> (r: SV39PageTable) {
        let r = SV39PageTable::new(pool);
        proof {
            assert forall|v: int| 0 <= v < VPN_LIMIT implies #[trigger] r.walk(v).is_none() by {
                assert(!r.mapping().dom().contains(v));
            }
        }
        r
    }

    fn map(&mut self, vpn: VirtPageNum, ppn: PhysPageNum, perm: MapPermission, pool: &mut FramePool) {
        SV39PageTable::map(self, vpn, ppn, perm, pool)
    }

    fn unmap(&mut self, vpn: VirtPageNum) {
        SV39PageTable::unmap(self, vpn)
    }

    fn translate(&self, vpn: VirtPageNum) -> (r: Option<PageTableEntry>) {
        SV39PageTable::translate(self, vpn)
    }

    fn token(&self) -> (r: u64) {
        SV39PageTable::token(self)
    }
}

/// Mapping an unmapped page and translating it gives back the frame and the
/// permissions, with the valid bit; unmapping it again makes translation give
/// nothing, and the table maps what it mapped before.
pub proof fn lemma_map_translate_round_trip(
    before: SV39PageTable,
    mapped: SV39PageTable,
    unmapped: SV39PageTable,
    vpn: VirtPageNum,
    ppn: PhysPageNum,
    perm: MapPermission,
)
    requires
        before.wf(),
        vpn.0 < VPN_LIMIT,
        ppn.0 < PPN_LIMIT,
        perm.wf(),
        before.walk(vpn.0 as int).is_none(),
        mapped.mapping() == before.mapping().insert(vpn.0 as int, pte_of(ppn.0 as int, perm.bits + PTE_V)),
        unmapped.mapping() == mapped.mapping().remove(vpn.0 as int),
    ensures
        mapped.mapping().dom().contains(vpn.0 as int),
        mapped.mapping()[vpn.0 as int].spec_ppn() == ppn.0,
        mapped.mapping()[vpn.0 as int].spec_flags() == perm.bits + PTE_V,
        mapped.mapping()[vpn.0 as int].valid(),
        !unmapped.mapping().dom().contains(vpn.0 as int),
        unmapped.mapping() == before.mapping(),
{
    lemma_pte_fields(ppn.0 as int, perm.bits + PTE_V);
    assert(!before.mapping().dom().contains(vpn.0 as int));
    assert(unmapped.mapping() =~= before.mapping());
}

} // verus!
