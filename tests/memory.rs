use os_kernel::task::{RecycleAllocator, TaskUserRes};
use os_kernel::address::{PhysPageNum, VirtAddr, VirtPageNum};
use os_kernel::frame_allocator::{frame_alloc, frame_alloc_more, frame_dealloc, FramePool, StackFrameAllocator};
use os_kernel::memory_set::{translated_byte_buffer, translated_ref, translated_refmut, translated_str, MemorySet};
use os_kernel::page_table::{MapPermission, PageTable, PageTableEntry, SV39PageTable, PTE_R, PTE_V, PTE_W};

fn pool() -> FramePool {
    FramePool::new(0x80000, 64, 4)
}

#[test]
fn stack_allocator_hands_out_fresh_frames_in_order() {
    let mut a = StackFrameAllocator::new();
    a.init(PhysPageNum(10), PhysPageNum(13));
    assert_eq!(a.alloc_frame(), Some(PhysPageNum(10)));
    assert_eq!(a.alloc_frame(), Some(PhysPageNum(11)));
    assert_eq!(a.alloc_frame(), Some(PhysPageNum(12)));
    assert_eq!(a.alloc_frame(), None);
}

#[test]
fn stack_allocator_prefers_the_last_recycled_frame() {
    let mut a = StackFrameAllocator::new();
    a.init(PhysPageNum(10), PhysPageNum(20));
    let p0 = a.alloc_frame().unwrap();
    let p1 = a.alloc_frame().unwrap();
    a.dealloc(p0);
    a.dealloc(p1);
    assert_eq!(a.alloc_frame(), Some(p1));
    assert_eq!(a.alloc_frame(), Some(p0));
    assert_eq!(a.alloc_frame(), Some(PhysPageNum(12)));
}

#[test]
fn alloc_never_returns_a_live_frame() {
    let mut a = StackFrameAllocator::new();
    a.init(PhysPageNum(0), PhysPageNum(8));
    let mut live: Vec<PhysPageNum> = Vec::new();
    for step in 0..40usize {
        if step % 3 == 2 && !live.is_empty() {
            let p = live.remove(step % live.len());
            a.dealloc(p);
        } else if let Some(p) = a.alloc_frame() {
            assert!(!live.contains(&p));
            live.push(p);
        }
    }
}

#[test]
fn alloc_more_is_all_or_nothing() {
    let mut a = StackFrameAllocator::new();
    a.init(PhysPageNum(100), PhysPageNum(104));
    assert!(a.alloc_more(5).is_none());
    let v = a.alloc_more(3).unwrap();
    assert_eq!(v, vec![PhysPageNum(102), PhysPageNum(101), PhysPageNum(100)]);
    assert!(a.can_alloc(1));
    assert!(!a.can_alloc(2));
    assert_eq!(a.alloc_more(1).unwrap(), vec![PhysPageNum(103)]);
    assert!(a.alloc_more(1).is_none());
}

#[test]
fn frame_alloc_zeroes_the_frame() {
    let mut p = pool();
    let t = frame_alloc(&mut p).unwrap();
    p.memory.write_byte(t.ppn, 7, 0xaa);
    let ppn = t.ppn;
    frame_dealloc(&mut p, ppn);
    let t2 = frame_alloc(&mut p).unwrap();
    assert_eq!(t2.ppn, ppn);
    assert_eq!(p.memory.read_byte(ppn, 7), 0);
    let more = frame_alloc_more(&mut p, 2).unwrap();
    assert_eq!(more.len(), 2);
}

#[test]
fn page_table_entry_layout() {
    let e = PageTableEntry::new(PhysPageNum(0x12345), PTE_V | PTE_R | PTE_W);
    assert_eq!(e.bits, (0x12345u64 << 10) | 0b111);
    assert_eq!(e.ppn(), PhysPageNum(0x12345));
    assert_eq!(e.flags(), 0b111);
    assert!(e.is_valid() && e.readable() && e.writable() && !e.executable());
    assert!(!PageTableEntry::empty().is_valid());
}

#[test]
fn page_table_map_translate_unmap() {
    let mut p = pool();
    let mut pt = SV39PageTable::new(&mut p);
    let vpn = VirtPageNum(0x12345);
    let perm = MapPermission::from_bits(MapPermission::R | MapPermission::W).unwrap();
    assert!(pt.translate(vpn).is_none());
    pt.map(vpn, PhysPageNum(0x80030), perm, &mut p);
    let e = pt.translate(vpn).unwrap();
    assert_eq!(e.ppn(), PhysPageNum(0x80030));
    assert_eq!(e.flags(), PTE_R | PTE_W | PTE_V);
    assert!(pt.translate(VirtPageNum(0x12346)).is_none());
    assert_eq!(pt.translate_va(VirtAddr(0x12345 * 4096 + 0x10)).unwrap().0, 0x80030 * 4096 + 0x10);
    pt.unmap(vpn);
    assert!(pt.translate(vpn).is_none());
}

#[test]
fn page_table_token_encodes_sv39_and_root() {
    let mut p = pool();
    let pt = SV39PageTable::new(&mut p);
    let t = pt.token();
    assert_eq!(t >> 60, 8);
    assert_eq!(t & ((1u64 << 44) - 1), 0x80004);
}

#[test]
fn framed_area_write_read_remove() {
    let mut p = pool();
    let mut ms = MemorySet::new_bare(&mut p);
    let perm = MapPermission::from_bits(MapPermission::R | MapPermission::W).unwrap();
    ms.insert_framed_area(VirtAddr(0x1000), VirtAddr(0x3000), perm, &mut p);
    assert!(ms.translate(VirtPageNum(1)).is_some());
    assert!(ms.translate(VirtPageNum(2)).is_some());
    assert!(ms.translate(VirtPageNum(3)).is_none());
    assert_eq!(ms.read_byte(VirtAddr(0x1abc), &p), Some(0));
    assert!(ms.write_byte(VirtAddr(0x1abc), 0x5a, &mut p));
    assert!(ms.write_byte(VirtAddr(0x2001), 0x77, &mut p));
    assert_eq!(ms.read_byte(VirtAddr(0x1abc), &p), Some(0x5a));
    assert_eq!(ms.read_byte(VirtAddr(0x2001), &p), Some(0x77));
    ms.remove_area_with_start_vpn(VirtPageNum(1), &mut p);
    assert!(ms.translate(VirtPageNum(1)).is_none());
    assert!(ms.translate(VirtPageNum(2)).is_none());
    assert_eq!(ms.read_byte(VirtAddr(0x1abc), &p), None);
    assert!(!ms.write_byte(VirtAddr(0x1abc), 1, &mut p));
}

#[test]
fn translated_buffers_cross_pages() {
    let mut p = pool();
    let mut ms = MemorySet::new_bare(&mut p);
    let perm = MapPermission::from_bits(MapPermission::R | MapPermission::W).unwrap();
    ms.insert_framed_area(VirtAddr(0x1000), VirtAddr(0x3000), perm, &mut p);
    let text = b"hi there";
    for (i, b) in text.iter().enumerate() {
        assert!(ms.write_byte(VirtAddr(0x1ffc + i as u64), *b, &mut p));
    }
    let buf = translated_byte_buffer(&ms, &p, 0x1ffc, text.len()).unwrap();
    assert_eq!(buf, vec![b"hi t".to_vec(), b"here".to_vec()]);
    assert_eq!(translated_byte_buffer(&ms, &p, 0x1010, 3).unwrap(), vec![vec![0, 0, 0]]);
    assert_eq!(translated_byte_buffer(&ms, &p, 0x1010, 0).unwrap(), Vec::<Vec<u8>>::new());
    assert_eq!(translated_str(&ms, &p, 0x1ffc).unwrap(), text.to_vec());
    assert!(translated_byte_buffer(&ms, &p, 0x2ffc, 8).is_none());
}

#[test]
fn user_resources_map_stack_and_trap_context() {
    let mut p = FramePool::new(0x80000, 400, 4);
    let mut ms = MemorySet::new_bare(&mut p);
    let mut ids = RecycleAllocator::new();
    let tid = ids.alloc_id();
    assert_eq!(tid, 0);
    let res = TaskUserRes::new(1, ids.alloc_id(), 0x10000);
    assert_eq!(res.tid, 1);
    assert_eq!(res.ustack_base(), 0x10000);
    assert_eq!(res.ustack_top(), 0x10000 + 0x41000 + 0x40000);
    assert_eq!(res.trap_cx_user_va(), 0x7f_ffff_e000 - 0x1000);
    assert!(res.trap_cx_ppn(&ms).is_none());
    res.alloc_user_res(&mut ms, &mut p);
    assert_eq!(ms.areas.len(), 2);
    let ppn = res.trap_cx_ppn(&ms).unwrap();
    assert!(ppn.0 >= 0x80004);
    res.dealloc_user_res(&mut ms, &mut p);
    assert_eq!(ms.areas.len(), 0);
    assert!(res.trap_cx_ppn(&ms).is_none());
    ids.dealloc(1);
    assert_eq!(ids.alloc_id(), 1);
}

fn map_via_trait<T: PageTable>(pool: &mut FramePool) -> T {
    let mut t = <T as PageTable>::new(pool);
    let perm = MapPermission::from_bits(MapPermission::R | MapPermission::X | MapPermission::U).unwrap();
    PageTable::map(&mut t, VirtPageNum(7), PhysPageNum(0x80040), perm, pool);
    t
}

#[test]
fn page_table_through_the_capability_trait() {
    let mut p = pool();
    let t: SV39PageTable = map_via_trait(&mut p);
    let e = PageTable::translate(&t, VirtPageNum(7)).unwrap();
    assert_eq!(e.ppn(), PhysPageNum(0x80040));
    assert!(e.readable() && e.executable() && !e.writable());
    assert!(PageTable::translate(&t, VirtPageNum(8)).is_none());
    assert_eq!(PageTable::token(&t) >> 60, 8);
}

#[test]
fn many_mappings_across_levels_stay_distinct() {
    let mut p = FramePool::new(0x80000, 64, 1);
    let mut pt = SV39PageTable::new(&mut p);
    let perm = MapPermission::from_bits(MapPermission::R).unwrap();
    let vpns: Vec<usize> = vec![0, 1, 511, 512, 0x3ffff, 0x40000, 0x40001, 0x7ff_ffff, 0x123_4567];
    for (i, v) in vpns.iter().enumerate() {
        pt.map(VirtPageNum(*v), PhysPageNum(0x1000 + i), perm, &mut p);
    }
    for (i, v) in vpns.iter().enumerate() {
        assert_eq!(pt.translate(VirtPageNum(*v)).unwrap().ppn(), PhysPageNum(0x1000 + i));
    }
    assert!(pt.translate(VirtPageNum(2)).is_none());
    assert!(pt.translate(VirtPageNum(0x40002)).is_none());
    pt.unmap(VirtPageNum(512));
    assert!(pt.translate(VirtPageNum(512)).is_none());
    assert_eq!(pt.translate(VirtPageNum(511)).unwrap().ppn(), PhysPageNum(0x1002));
    assert_eq!(pt.translate(VirtPageNum(0)).unwrap().ppn(), PhysPageNum(0x1000));
}

#[test]
fn translated_refs_point_into_the_frame() {
    let mut p = pool();
    let mut ms = MemorySet::new_bare(&mut p);
    let perm = MapPermission::from_bits(MapPermission::R | MapPermission::W).unwrap();
    ms.insert_framed_area(VirtAddr(0x5000), VirtAddr(0x6000), perm, &mut p);
    let ppn = ms.translate(VirtPageNum(5)).unwrap().ppn();
    assert_eq!(translated_ref(&ms, 0x5123).unwrap().0, ppn.0 as u64 * 4096 + 0x123);
    assert_eq!(translated_refmut(&ms, 0x5fff).unwrap().0, ppn.0 as u64 * 4096 + 0xfff);
    assert!(translated_ref(&ms, 0x6000).is_none());
}

#[test]
fn thread_ids_are_recycled() {
    let mut ids = RecycleAllocator::new();
    let mut a = TaskUserRes::new(1, 0, 0x10000);
    a.alloc_tid(&mut ids);
    let mut b = TaskUserRes::new(1, 0, 0x10000);
    b.alloc_tid(&mut ids);
    assert_eq!((a.tid, b.tid), (0, 1));
    a.dealloc_tid(&mut ids);
    let mut c = TaskUserRes::new(1, 0, 0x10000);
    c.alloc_tid(&mut ids);
    assert_eq!(c.tid, 0);
}

#[test]
fn unterminated_string_runs_into_an_unmapped_page() {
    let mut p = pool();
    let mut ms = MemorySet::new_bare(&mut p);
    let perm = MapPermission::from_bits(MapPermission::R | MapPermission::W).unwrap();
    ms.insert_framed_area(VirtAddr(0x1000), VirtAddr(0x2000), perm, &mut p);
    for i in 0..4u64 {
        assert!(ms.write_byte(VirtAddr(0x1ffc + i), b'x', &mut p));
    }
    assert!(translated_str(&ms, &p, 0x1ffc).is_none());
    assert_eq!(translated_str(&ms, &p, 0x1000).unwrap(), Vec::<u8>::new());
}

#[test]
fn new_thread_gets_id_resources_and_trap_frame() {
    use_task_control_block();
}

fn use_task_control_block() {
    let mut p = FramePool::new(0x80000, 400, 4);
    let mut ms = MemorySet::new_bare(&mut p);
    let mut ids = RecycleAllocator::new();
    let t = os_kernel::task::TaskControlBlock::new(3, 0x10000, true, &mut ids, &mut ms, &mut p, 0x9000, 0x42);
    let res = t.inner.res.unwrap();
    assert_eq!(res.tid, 0);
    assert_eq!(t.pid, 3);
    assert_eq!(ms.areas.len(), 2);
    assert_eq!(t.inner.trap_cx_ppn, res.trap_cx_ppn(&ms).unwrap());
    assert_eq!(t.inner.task_cx.ra, 0x42);
    assert_eq!(t.inner.task_cx.sp, 0x9000);
    let t2 = os_kernel::task::TaskControlBlock::new(3, 0x10000, true, &mut ids, &mut ms, &mut p, 0xa000, 0x42);
    assert_eq!(t2.inner.res.unwrap().tid, 1);
    assert_eq!(ms.areas.len(), 4);
    assert_ne!(t2.inner.trap_cx_ppn, t.inner.trap_cx_ppn);
}
