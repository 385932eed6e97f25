use vstd::prelude::*;
use crate::config::{PAGE_SIZE, PTE_PER_PAGE, VPN_LIMIT, VA_LIMIT, PPN_LIMIT};

verus! {

/// A physical page number.
#[derive(Clone, Copy, PartialEq, Eq, Structural, Debug)]
pub struct PhysPageNum(pub usize);

/// A virtual page number.
#[derive(Clone, Copy, PartialEq, Eq, Structural, Debug)]
pub struct VirtPageNum(pub usize);

/// A physical byte address.
#[derive(Clone, Copy, PartialEq, Eq, Structural, Debug)]
pub struct PhysAddr(pub u64);

/// A virtual byte address.
#[derive(Clone, Copy, PartialEq, Eq, Structural, Debug)]
pub struct VirtAddr(pub u64);

/// The index into the node of level `level` (0 is the root) on the walk for `vpn`.
pub open spec fn vpn_index(vpn: int, level: int) -> int {
    if level == 0 {
        (vpn / 0x40000) % 512
    } else if level == 1 {
        (vpn / 512) % 512
    } else {
        vpn % 512
    }
}

/// Two page numbers of an SV39 space with the same three indices are equal.
pub proof fn lemma_indexes_determine_vpn(a: int, b: int)
    requires
        0 <= a < VPN_LIMIT,
        0 <= b < VPN_LIMIT,
        vpn_index(a, 0) == vpn_index(b, 0),
        vpn_index(a, 1) == vpn_index(b, 1),
        vpn_index(a, 2) == vpn_index(b, 2),
    ensures
        a == b,
{
    assert(a == (a / 0x40000) * 0x40000 + ((a / 512) % 512) * 512 + a % 512) by (nonlinear_arith)
        requires 0 <= a;
    assert(b == (b / 0x40000) * 0x40000 + ((b / 512) % 512) * 512 + b % 512) by (nonlinear_arith)
        requires 0 <= b;
    assert(a / 0x40000 < 512) by (nonlinear_arith)
        requires 0 <= a < 0x800_0000;
    assert(b / 0x40000 < 512) by (nonlinear_arith)
        requires 0 <= b < 0x800_0000;
}

impl VirtPageNum {
    /// The three node indices of the SV39 walk for this page, root first.
    pub fn indexes(&self) -> (r: [usize; 3])
        ensures
            forall|l: int| 0 <= l < 3 ==> r@[l] == vpn_index(self.0 as int, l),
            forall|l: int| 0 <= l < 3 ==> r@[l] < PTE_PER_PAGE,
    {
        let v = self.0;
        [(v / 0x40000) % 512, (v / 512) % 512, v % 512]
    }

    /// The first address of this page.
    pub fn start_addr(&self) -> (r: VirtAddr)
        requires
            self.0 < VPN_LIMIT,
        ensures
            r.0 == self.0 * PAGE_SIZE,
            r.0 < VA_LIMIT,
    {
        VirtAddr(self.0 as u64 * 0x1000)
    }
}

impl VirtAddr {
    /// The page that holds this address.
    pub fn floor(&self) -> (r: VirtPageNum)
        requires
            self.0 < VA_LIMIT,
        ensures
            r.0 == self.0 / PAGE_SIZE as u64,
    {
        VirtPageNum((self.0 / 0x1000) as usize)
    }

    /// The first page at or above this address.
    pub fn ceil(&self) -> (r: VirtPageNum)
        requires
            self.0 < VA_LIMIT,
        ensures
            r.0 == (self.0 as int + PAGE_SIZE - 1) / PAGE_SIZE as int,
    {
        if self.0 % 0x1000 == 0 {
            VirtPageNum((self.0 / 0x1000) as usize)
        } else {
            VirtPageNum((self.0 / 0x1000) as usize + 1)
        }
    }

    /// The offset of this address within its page.
    pub fn page_offset(&self) -> (r: usize)
        ensures
            r == self.0 % PAGE_SIZE as u64,
            r < PAGE_SIZE,
    {
        (self.0 % 0x1000) as usize
    }
}

impl PhysPageNum {
    /// The first address of this frame.
    pub fn start_addr(&self) -> (r: PhysAddr)
        requires
            self.0 < PPN_LIMIT,
        ensures
            r.0 == self.0 * PAGE_SIZE,
    {
        PhysAddr(self.0 as u64 * 0x1000)
    }
}

impl PhysAddr {
    /// The frame that holds this address.
    pub fn floor(&self) -> (r: PhysPageNum)
        requires
            self.0 / PAGE_SIZE as u64 <= usize::MAX,
        ensures
            r.0 == self.0 / PAGE_SIZE as u64,
    {
        PhysPageNum((self.0 / 0x1000) as usize)
    }

    /// The offset of this address within its frame.
    pub fn page_offset(&self) -> (r: usize)
        ensures
            r == self.0 % PAGE_SIZE as u64,
            r < PAGE_SIZE,
    {
        (self.0 % 0x1000) as usize
    }
}

} // verus!
