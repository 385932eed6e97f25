use vstd::prelude::*;
use crate::address::PhysPageNum;
use crate::config::{PAGE_SIZE, PPN_LIMIT};

verus! {

/// Simulated physical memory: `npages` frames starting at frame `first_ppn`.
pub struct PhysMemory {
    pub first_ppn: usize,
    pub npages: usize,
    pub bytes: Vec<u8>,
}

/// Where byte `off` of frame `ppn` lies in a memory whose first frame is `first`.
pub open spec fn byte_index(first: int, ppn: int, off: int) -> int {
    (ppn - first) * PAGE_SIZE + off
}

pub proof fn lemma_byte_index_bounds(first: int, npages: int, ppn: int, off: int)
    requires
        first <= ppn < first + npages,
        0 <= off < PAGE_SIZE,
    ensures
        0 <= byte_index(first, ppn, off) < npages * PAGE_SIZE,
        byte_index(first, ppn, 0) <= byte_index(first, ppn, off) < byte_index(first, ppn, 0)
            + PAGE_SIZE,
{
    assert(0 <= (ppn - first) * 4096 + off < npages * 4096) by (nonlinear_arith)
        requires
            first <= ppn < first + npages,
            0 <= off < 4096,
    ;
}

/// Distinct (frame, offset) pairs lie at distinct bytes.
pub proof fn lemma_byte_index_injective(first: int, p: int, o: int, q: int, r: int)
    requires
        0 <= o < PAGE_SIZE,
        0 <= r < PAGE_SIZE,
        byte_index(first, p, o) == byte_index(first, q, r),
    ensures
        p == q,
        o == r,
{
    assert(p == q && o == r) by (nonlinear_arith)
        requires
            0 <= o < 4096,
            0 <= r < 4096,
            (p - first) * 4096 + o == (q - first) * 4096 + r,
    ;
}

impl PhysMemory {
    pub open spec fn wf(&self) -> bool {
        &&& self.bytes@.len() == self.npages * PAGE_SIZE
        &&& self.first_ppn + self.npages < PPN_LIMIT
    }

    pub open spec fn covers(&self, ppn: int) -> bool {
        self.first_ppn <= ppn < self.first_ppn + self.npages
    }

    /// Byte `off` of frame `ppn`.
    pub open spec fn byte(&self, ppn: int, off: int) -> u8 {
        self.bytes@[byte_index(self.first_ppn as int, ppn, off)]
    }

    /// A zeroed memory of `npages` frames starting at frame `first_ppn`.
    pub fn new(first_ppn: usize, npages: usize) -> (r: PhysMemory)
        requires
            first_ppn + npages < PPN_LIMIT,
            npages * PAGE_SIZE <= usize::MAX,
        ensures
            r.wf(),
            r.first_ppn == first_ppn,
            r.npages == npages,
            forall|p: int, o: int| r.covers(p) && 0 <= o < PAGE_SIZE ==> r.byte(p, o) == 0,
    {
        let total: usize = npages * PAGE_SIZE;
        let mut bytes: Vec<u8> = Vec::new();
        let mut i: usize = 0;
        while i < total
            invariant
                i <= total,
                bytes@.len() == i,
                forall|k: int| 0 <= k < i ==> bytes@[k] == 0,
            decreases total - i,
        {
            bytes.push(0);
            i = i + 1;
        }
        let r = PhysMemory { first_ppn, npages, bytes };
        assert forall|p: int, o: int| r.covers(p) && 0 <= o < PAGE_SIZE implies r.byte(p, o) == 0 by {
            lemma_byte_index_bounds(first_ppn as int, npages as int, p, o);
        }
        r
    }

    /// Reads byte `off` of frame `ppn`.
    pub fn read_byte(&self, ppn: PhysPageNum, off: usize) -> (r: u8)
        requires
            self.wf(),
            self.covers(ppn.0 as int),
            off < PAGE_SIZE,
        ensures
            r == self.byte(ppn.0 as int, off as int),
    {
        proof {
            lemma_byte_index_bounds(self.first_ppn as int, self.npages as int, ppn.0 as int, off as int);
        }
        let _len = self.bytes.len();
        self.bytes[(ppn.0 - self.first_ppn) * PAGE_SIZE + off]
    }

    /// Writes byte `off` of frame `ppn`; every other byte keeps its value.
    pub fn write_byte(&mut self, ppn: PhysPageNum, off: usize, value: u8)
        requires
            old(self).wf(),
            old(self).covers(ppn.0 as int),
            off < PAGE_SIZE,
        ensures
            final(self).wf(),
            final(self).first_ppn == old(self).first_ppn,
            final(self).npages == old(self).npages,
            final(self).byte(ppn.0 as int, off as int) == value,
            forall|p: int, o: int|
                final(self).covers(p) && 0 <= o < PAGE_SIZE && (p != ppn.0 || o != off)
                    ==> final(self).byte(p, o) == old(self).byte(p, o),
    {
        proof {
            lemma_byte_index_bounds(self.first_ppn as int, self.npages as int, ppn.0 as int, off as int);
        }
        let _len = self.bytes.len();
        let idx = (ppn.0 - self.first_ppn) * PAGE_SIZE + off;
        self.bytes.set(idx, value);
        proof {
            assert forall|p: int, o: int|
                self.covers(p) && 0 <= o < PAGE_SIZE && (p != ppn.0 || o != off)
                implies self.byte(p, o) == old(self).byte(p, o) by {
                lemma_byte_index_bounds(self.first_ppn as int, self.npages as int, p, o);
                if byte_index(self.first_ppn as int, p, o) == idx {
                    lemma_byte_index_injective(self.first_ppn as int, p, o, ppn.0 as int, off as int);
                }
            }
        }
    }

    /// Fills frame `ppn` with zeros; every other frame keeps its bytes.
    pub fn zero_page(&mut self, ppn: PhysPageNum)
        requires
            old(self).wf(),
            old(self).covers(ppn.0 as int),
        ensures
            final(self).wf(),
            final(self).first_ppn == old(self).first_ppn,
            final(self).npages == old(self).npages,
            forall|o: int| 0 <= o < PAGE_SIZE ==> final(self).byte(ppn.0 as int, o) == 0,
            forall|p: int, o: int|
                final(self).covers(p) && 0 <= o < PAGE_SIZE && p != ppn.0
                    ==> final(self).byte(p, o) == old(self).byte(p, o),
    {
        let mut i: usize = 0;
        while i < PAGE_SIZE
            invariant
                i <= PAGE_SIZE,
                self.wf(),
                self.first_ppn == old(self).first_ppn,
                self.npages == old(self).npages,
                self.covers(ppn.0 as int),
                forall|o: int| 0 <= o < i ==> self.byte(ppn.0 as int, o) == 0,
                forall|p: int, o: int|
                    self.covers(p) && 0 <= o < PAGE_SIZE && p != ppn.0
                        ==> self.byte(p, o) == old(self).byte(p, o),
            decreases PAGE_SIZE - i,
        {
            self.write_byte(ppn, i, 0);
            i = i + 1;
        }
    }
}

/// What one allocation does: `r` is a frame that was free and is now out,
/// every other frame keeps its state; `None` only when no frame was free.
pub open spec fn alloc_post(a: StackFrameAllocator, b: StackFrameAllocator, r: Option<PhysPageNum>) -> bool {
    &&& b.wf()
    &&& b.start() == a.start()
    &&& b.end() == a.end()
    &&& r.is_none() <==> a.free_count() == 0
    &&& r.is_none() ==> b.current() == a.current() && b.recycled() == a.recycled()
    &&& r matches Some(p) ==> {
        &&& a.is_free(p.0 as int)
        &&& !b.is_free(p.0 as int)
        &&& forall|q: int| q != p.0 ==> b.is_free(q) == a.is_free(q)
        &&& b.free_count() + 1 == a.free_count()
        &&& a.recycled().len() > 0 ==> p.0 == a.recycled().last() && b.recycled() == a.recycled().drop_last()
            && b.current() == a.current()
        &&& a.recycled().len() == 0 ==> p.0 == a.current() && b.current() == a.current() + 1
            && b.recycled() == a.recycled()
    }
}

/// The stack allocator of frames: frames from `current` up to `end` have never
/// been handed out, and `recycled` holds the frames given back since, the
/// last one given back being the first handed out again.
pub struct StackFrameAllocator {
    start: usize,
    current: usize,
    end: usize,
    recycled: Vec<usize>,
}

impl StackFrameAllocator {
    pub closed spec fn start(&self) -> nat {
        self.start as nat
    }

    pub closed spec fn current(&self) -> nat {
        self.current as nat
    }

    pub closed spec fn end(&self) -> nat {
        self.end as nat
    }

    /// The recycled frames, the next one to be handed out last.
    pub closed spec fn recycled(&self) -> Seq<usize> {
        self.recycled@
    }

    pub open spec fn wf(&self) -> bool {
        &&& self.start() <= self.current() <= self.end()
        &&& self.recycled().no_duplicates()
        &&& forall|i: int|
            0 <= i < self.recycled().len() ==> self.start() <= #[trigger] self.recycled()[i]
                < self.current()
    }

    /// Frame `p` can be handed out.
    pub open spec fn is_free(&self, p: int) -> bool {
        (self.current() <= p < self.end()) || (0 <= p <= usize::MAX && self.recycled().contains(
            p as usize,
        ))
    }

    /// Frame `p` has been handed out and not given back.
    pub open spec fn is_allocated(&self, p: int) -> bool {
        self.start() <= p < self.end() && !self.is_free(p)
    }

    /// How many frames can be handed out.
    pub open spec fn free_count(&self) -> nat {
        (self.end() - self.current()) as nat + self.recycled().len()
    }

    /// An allocator that manages no frames.
    pub fn new() -> (r: StackFrameAllocator)
        ensures
            r.wf(),
            r.free_count() == 0,
            forall|p: int| !r.is_free(p),
    {
        StackFrameAllocator { start: 0, current: 0, end: 0, recycled: Vec::new() }
    }

    /// Hands the frames `[l, r)` to the allocator, none of them allocated.
    pub fn init(&mut self, l: PhysPageNum, r: PhysPageNum)
        requires
            l.0 <= r.0,
        ensures
            final(self).wf(),
            final(self).start() == l.0,
            final(self).end() == r.0,
            final(self).free_count() == r.0 - l.0,
            forall|p: int| final(self).is_free(p) <==> l.0 <= p < r.0,
    {
        self.start = l.0;
        self.current = l.0;
        self.end = r.0;
        self.recycled = Vec::new();
    }

    /// Whether at least `n` frames can still be handed out.
    pub fn can_alloc(&self, n: usize) -> (r: bool)
        requires
            self.wf(),
        ensures
            r == (self.free_count() >= n),
    {
        let len = self.recycled.len();
        if len >= n {
            true
        } else {
            self.end - self.current >= n - len
        }
    }

    /// Hands out one free frame: the last one recycled, else the lowest fresh one.
    pub fn alloc_frame(&mut self) -> (r: Option<PhysPageNum>)
        requires
            old(self).wf(),
        ensures
            final(self).wf(),
            final(self).start() == old(self).start(),
            final(self).end() == old(self).end(),
            alloc_post(*old(self), *final(self), r),
    {
        if let Some(ppn) = self.recycled.pop() {
            proof {
                let old_r = old(self).recycled();
                assert(old_r == self.recycled@.push(ppn));
                assert(old_r[old_r.len() - 1] == ppn);
                assert forall|q: int| q != ppn implies self.is_free(q) == old(self).is_free(q) by {
                    if 0 <= q <= usize::MAX && old_r.contains(q as usize) {
                        let k = choose|k: int| 0 <= k < old_r.len() && old_r[k] == q as usize;
                        assert(k < old_r.len() - 1);
                        assert(self.recycled@[k] == q as usize);
                    }
                }
                assert(!self.recycled@.contains(ppn)) by {
                    if self.recycled@.contains(ppn) {
                        let k = choose|k: int| 0 <= k < self.recycled@.len() && self.recycled@[k] == ppn;
                        assert(old_r[k] == old_r[old_r.len() - 1]);
                    }
                }
            }
            Some(PhysPageNum(ppn))
        } else if self.current == self.end {
            None
        } else {
            self.current = self.current + 1;
            proof {
                assert(!self.recycled@.contains((self.current - 1) as usize)) by {
                    if self.recycled@.contains((self.current - 1) as usize) {
                        let k = choose|k: int| 0 <= k < self.recycled@.len() && self.recycled@[k] == (self.current - 1) as usize;
                    }
                }
            }
            Some(PhysPageNum(self.current - 1))
        }
    }

    /// The allocator after a successful `alloc_more(pages)`.
    pub closed spec fn alloc_more_result(self, pages: usize) -> StackFrameAllocator {
        StackFrameAllocator { current: (self.current + pages) as usize, ..self }
    }

    /// Hands out `pages` fresh frames at once, or none when fewer than
    /// `pages` fresh frames remain. The frames come highest first.
    pub fn alloc_more(&mut self, pages: usize) -> (r: Option<Vec<PhysPageNum>>)
        requires
            old(self).wf(),
        ensures
            final(self).wf(),
            final(self).start() == old(self).start(),
            final(self).end() == old(self).end(),
            final(self).recycled() == old(self).recycled(),
            r.is_none() <==> old(self).current() + pages > old(self).end(),
            r.is_none() ==> final(self).current() == old(self).current(),
            r matches Some(v) ==> {
                &&& *final(self) == old(self).alloc_more_result(pages)
                &&& final(self).current() == old(self).current() + pages
                &&& v@.len() == pages
                &&& forall|i: int|
                    0 <= i < pages ==> (#[trigger] v@[i]).0 == final(self).current() - 1 - i
                &&& forall|i: int| 0 <= i < pages ==> old(self).is_free((#[trigger] v@[i]).0 as int)
                &&& forall|i: int| 0 <= i < pages ==> !final(self).is_free((#[trigger] v@[i]).0 as int)
            },
    {
        if pages > self.end - self.current {
            None
        } else {
            self.current = self.current + pages;
            let mut v: Vec<PhysPageNum> = Vec::new();
            let mut i: usize = 0;
            while i < pages
                invariant
                    i <= pages,
                    self.current == old(self).current() + pages,
                    *self == old(self).alloc_more_result(pages),
                    v@.len() == i,
                    forall|j: int| 0 <= j < i ==> (#[trigger] v@[j]).0 == self.current - 1 - j,
                decreases pages - i,
            {
                v.push(PhysPageNum(self.current - 1 - i));
                i = i + 1;
            }
            proof {
                assert forall|i: int| 0 <= i < pages implies !self.is_free((#[trigger] v@[i]).0 as int) by {
                    let p = v@[i].0;
                    if self.recycled@.contains(p) {
                        let k = choose|k: int| 0 <= k < self.recycled@.len() && self.recycled@[k] == p;
                    }
                }
                assert forall|i: int| 0 <= i < pages implies old(self).is_free((#[trigger] v@[i]).0 as int) by {}
            }
            Some(v)
        }
    }

    /// Takes back frame `ppn`, which must be allocated: below the fresh
    /// frames and not recycled already.
    pub fn dealloc(&mut self, ppn: PhysPageNum)
        requires
            old(self).wf(),
            old(self).start() <= ppn.0 < old(self).current(),
            !old(self).recycled().contains(ppn.0),
        ensures
            dealloc_post(*old(self), *final(self), ppn),
    {
        self.recycled.push(ppn.0);
        proof {
            let o = old(self).recycled();
            assert(self.recycled@ == o.push(ppn.0));
            assert(self.recycled@[o.len() as int] == ppn.0);
            assert forall|q: int| q != ppn.0 implies self.is_free(q) == old(self).is_free(q) by {
                if 0 <= q <= usize::MAX && o.contains(q as usize) {
                    let k = choose|k: int| 0 <= k < o.len() && o[k] == q as usize;
                    assert(self.recycled@[k] == q as usize);
                }
                if 0 <= q <= usize::MAX && self.recycled@.contains(q as usize) {
                    let k = choose|k: int| 0 <= k < self.recycled@.len() && self.recycled@[k] == q as usize;
                    assert(k < o.len());
                    assert(o[k] == q as usize);
                }
            }
            assert(self.recycled@.no_duplicates()) by {
                assert forall|i: int, j: int| 0 <= i < j < self.recycled@.len() implies self.recycled@[i] != self.recycled@[j] by {
                    if j == o.len() {
                        assert(o[i] == self.recycled@[i]);
                    }
                }
            }
        }
    }
}

/// Exclusive ownership of one frame, zeroed when it was handed out.
#[derive(Debug)]
pub struct FrameTracker {
    pub ppn: PhysPageNum,
}

impl FrameTracker {
    /// Takes ownership of frame `ppn` and fills it with zeros.
    pub fn new(ppn: PhysPageNum, memory: &mut PhysMemory) -> (r: FrameTracker)
        requires
            old(memory).wf(),
            old(memory).covers(ppn.0 as int),
        ensures
            r.ppn == ppn,
            final(memory).wf(),
            final(memory).first_ppn == old(memory).first_ppn,
            final(memory).npages == old(memory).npages,
            forall|o: int| 0 <= o < PAGE_SIZE ==> final(memory).byte(ppn.0 as int, o) == 0,
            forall|p: int, o: int|
                final(memory).covers(p) && 0 <= o < PAGE_SIZE && p != ppn.0
                    ==> final(memory).byte(p, o) == old(memory).byte(p, o),
    {
        memory.zero_page(ppn);
        FrameTracker { ppn }
    }
}

/// The frames of the machine: the allocator and the memory its frames live in.
pub struct FramePool {
    pub allocator: StackFrameAllocator,
    pub memory: PhysMemory,
}

impl FramePool {
    pub open spec fn wf(&self) -> bool {
        &&& self.allocator.wf()
        &&& self.memory.wf()
        &&& self.memory.first_ppn <= self.allocator.start()
        &&& self.allocator.end() <= self.memory.first_ppn + self.memory.npages
    }

    /// Frame `p`'s bytes are unchanged from `other` to `self`.
    pub open spec fn same_frame(&self, other: &FramePool, p: int) -> bool {
        forall|o: int| 0 <= o < PAGE_SIZE ==> self.memory.byte(p, o) == other.memory.byte(p, o)
    }

    /// A pool whose memory holds frames `[first_ppn, first_ppn + npages)`,
    /// those from `reserved` on being free and zeroed.
    pub fn new(first_ppn: usize, npages: usize, reserved: usize) -> (r: FramePool)
        requires
            first_ppn + npages < PPN_LIMIT,
            first_ppn + npages <= usize::MAX,
            npages * PAGE_SIZE <= usize::MAX,
            reserved <= npages,
        ensures
            r.wf(),
            r.memory.first_ppn == first_ppn,
            r.memory.npages == npages,
            r.allocator.start() == first_ppn + reserved,
            r.allocator.end() == first_ppn + npages,
            forall|p: int| r.allocator.is_free(p) <==> first_ppn + reserved <= p < first_ppn + npages,
            forall|p: int, o: int| r.memory.covers(p) && 0 <= o < PAGE_SIZE ==> r.memory.byte(p, o) == 0,
    {
        let memory = PhysMemory::new(first_ppn, npages);
        let mut allocator = StackFrameAllocator::new();
        allocator.init(PhysPageNum(first_ppn + reserved), PhysPageNum(first_ppn + npages));
        FramePool { allocator, memory }
    }
}

/// The frame that an optional tracker holds.
pub open spec fn tracked_frame(r: Option<FrameTracker>) -> Option<PhysPageNum> {
    match r {
        Some(t) => Some(t.ppn),
        None => None,
    }
}

/// Hands out one zeroed frame, as `StackFrameAllocator::alloc_frame` picks it.
pub fn frame_alloc(pool: &mut FramePool) -> (r: Option<FrameTracker>)
    requires
        old(pool).wf(),
    ensures
        final(pool).wf(),
        final(pool).memory.first_ppn == old(pool).memory.first_ppn,
        final(pool).memory.npages == old(pool).memory.npages,
        alloc_post(old(pool).allocator, final(pool).allocator, tracked_frame(r)),
        r matches Some(t) ==> forall|o: int|
            0 <= o < PAGE_SIZE ==> final(pool).memory.byte(t.ppn.0 as int, o) == 0,
        forall|p: int|
            old(pool).memory.covers(p) && (r matches Some(t) ==> p != t.ppn.0)
                ==> #[trigger] final(pool).same_frame(old(pool), p),
{
    match pool.allocator.alloc_frame() {
        Some(ppn) => {
            let t = FrameTracker::new(ppn, &mut pool.memory);
            Some(t)
        },
        None => None,
    }
}

/// Hands out `num` fresh zeroed frames at once, or none.
pub fn frame_alloc_more(pool: &mut FramePool, num: usize) -> (r: Option<Vec<FrameTracker>>)
    requires
        old(pool).wf(),
    ensures
        final(pool).wf(),
        final(pool).memory.first_ppn == old(pool).memory.first_ppn,
        final(pool).memory.npages == old(pool).memory.npages,
        final(pool).allocator.recycled() == old(pool).allocator.recycled(),
        r.is_none() <==> old(pool).allocator.current() + num > old(pool).allocator.end(),
        r.is_none() ==> final(pool).allocator.current() == old(pool).allocator.current(),
        r matches Some(v) ==> {
            &&& final(pool).allocator.current() == old(pool).allocator.current() + num
            &&& v@.len() == num
            &&& forall|i: int|
                0 <= i < num ==> (#[trigger] v@[i]).ppn.0 == final(pool).allocator.current() - 1 - i
            &&& forall|i: int| 0 <= i < num ==> old(pool).allocator.is_free((#[trigger] v@[i]).ppn.0 as int)
            &&& forall|i: int| 0 <= i < num ==> !final(pool).allocator.is_free((#[trigger] v@[i]).ppn.0 as int)
        },
{
    match pool.allocator.alloc_more(num) {
        Some(ppns) => {
            let mut v: Vec<FrameTracker> = Vec::new();
            let mut i: usize = 0;
            while i < ppns.len()
                invariant
                    i <= ppns@.len(),
                    ppns@.len() == num,
                    pool.wf(),
                    pool.allocator == old(pool).allocator.alloc_more_result(num),
                    pool.memory.first_ppn == old(pool).memory.first_ppn,
                    pool.memory.npages == old(pool).memory.npages,
                    forall|j: int| 0 <= j < num ==> (#[trigger] ppns@[j]).0 == pool.allocator.current() - 1 - j,
                    forall|j: int| 0 <= j < num ==> pool.allocator.start() <= (#[trigger] ppns@[j]).0 < pool.allocator.end(),
                    v@.len() == i,
                    forall|j: int| 0 <= j < i ==> (#[trigger] v@[j]).ppn == ppns@[j],
                decreases num - i,
            {
                let t = FrameTracker::new(ppns[i], &mut pool.memory);
                v.push(t);
                i = i + 1;
            }
            Some(v)
        },
        None => None,
    }
}

/// Gives frame `ppn` back to the pool.
pub fn frame_dealloc(pool: &mut FramePool, ppn: PhysPageNum)
    requires
        old(pool).wf(),
        old(pool).allocator.is_allocated(ppn.0 as int),
    ensures
        final(pool).wf(),
        final(pool).memory == old(pool).memory,
        dealloc_post(old(pool).allocator, final(pool).allocator, ppn),
{
    pool.allocator.dealloc(ppn);
}

/// What giving back frame `p` does: it is free again, every other frame
/// keeps its state.
pub open spec fn dealloc_post(a: StackFrameAllocator, b: StackFrameAllocator, p: PhysPageNum) -> bool {
    &&& b.wf()
    &&& b.start() == a.start()
    &&& b.end() == a.end()
    &&& b.current() == a.current()
    &&& b.recycled() == a.recycled().push(p.0)
    &&& b.is_free(p.0 as int)
    &&& forall|q: int| q != p.0 ==> b.is_free(q) == a.is_free(q)
    &&& b.free_count() == a.free_count() + 1
}

/// No frame is handed out twice: when every frame held by a live tracker
/// (`live`) is allocated, the frame an allocation returns is held by none of
/// them, and afterwards the trackers with the new one are all allocated.
pub proof fn lemma_alloc_returns_unowned_frame(
    a: StackFrameAllocator,
    b: StackFrameAllocator,
    live: Set<int>,
    p: PhysPageNum,
)
    requires
        a.wf(),
        forall|q: int| live.contains(q) ==> a.is_allocated(q),
        alloc_post(a, b, Some(p)),
    ensures
        !live.contains(p.0 as int),
        forall|q: int| live.insert(p.0 as int).contains(q) ==> b.is_allocated(q),
{
}

/// Giving back a frame held by a live tracker keeps every other live
/// tracker's frame allocated.
pub proof fn lemma_dealloc_keeps_others_owned(
    a: StackFrameAllocator,
    b: StackFrameAllocator,
    live: Set<int>,
    p: PhysPageNum,
)
    requires
        a.wf(),
        forall|q: int| live.contains(q) ==> a.is_allocated(q),
        live.contains(p.0 as int),
        dealloc_post(a, b, p),
    ensures
        forall|q: int| live.remove(p.0 as int).contains(q) ==> b.is_allocated(q),
{
}

/// One step of a run of the allocator: an allocation with what it returned,
/// or the return of a frame.
pub enum FrameOp {
    Alloc(Option<PhysPageNum>),
    Dealloc(PhysPageNum),
}

/// The frames held by live trackers after the first `i` steps of `ops`,
/// starting from `live`.
pub open spec fn live_after(live: Set<int>, ops: Seq<FrameOp>, i: nat) -> Set<int>
    decreases i,
{
    if i == 0 {
        live
    } else {
        let prev = live_after(live, ops, (i - 1) as nat);
        match ops[i - 1] {
            FrameOp::Alloc(Some(p)) => prev.insert(p.0 as int),
            FrameOp::Alloc(None) => prev,
            FrameOp::Dealloc(p) => prev.remove(p.0 as int),
        }
    }
}

/// Step `i` of a run: `states[i + 1]` is what `ops[i]` makes of
/// `states[i]`, a returned frame being one a live tracker held.
pub open spec fn run_step(states: Seq<StackFrameAllocator>, ops: Seq<FrameOp>, live: Set<int>, i: int) -> bool {
    match ops[i] {
        FrameOp::Alloc(r) => alloc_post(states[i], states[i + 1], r),
        FrameOp::Dealloc(p) => live_after(live, ops, i as nat).contains(p.0 as int) && dealloc_post(
            states[i],
            states[i + 1],
            p,
        ),
    }
}

/// Frame uniqueness over any run of allocations and returns: an
/// allocation never hands out a frame that a live tracker holds, and every
/// live tracker's frame stays allocated.
pub proof fn lemma_frame_uniqueness(states: Seq<StackFrameAllocator>, ops: Seq<FrameOp>, live: Set<int>, n: nat)
    requires
        n <= ops.len(),
        states.len() == ops.len() + 1,
        states[0].wf(),
        forall|q: int| live.contains(q) ==> states[0].is_allocated(q),
        forall|i: int| 0 <= i < n ==> run_step(states, ops, live, i),
    ensures
        states[n as int].wf(),
        forall|q: int| live_after(live, ops, n).contains(q) ==> states[n as int].is_allocated(q),
        forall|i: int|
            0 <= i < n ==> (#[trigger] ops[i] matches FrameOp::Alloc(Some(p)) ==> !live_after(live, ops, i as nat).contains(
                p.0 as int,
            )),
    decreases n,
{
    if n > 0 {
        let m = (n - 1) as nat;
        lemma_frame_uniqueness(states, ops, live, m);
        let prev = live_after(live, ops, m);
        assert(run_step(states, ops, live, m as int));
        match ops[m as int] {
            FrameOp::Alloc(Some(p)) => {
                lemma_alloc_returns_unowned_frame(states[m as int], states[n as int], prev, p);
            },
            FrameOp::Alloc(None) => {
                assert forall|q: int| prev.contains(q) implies states[n as int].is_allocated(q) by {
                    assert(states[m as int].is_allocated(q));
                }
            },
            FrameOp::Dealloc(p) => {
                lemma_dealloc_keeps_others_owned(states[m as int], states[n as int], prev, p);
            },
        }
    }
}

} // verus!
