use kernel_core::mm::frame_allocator::FrameAllocator;
use kernel_core::mm::memory_set::{ceil_page, floor_page, MapPermission, MapType, MemorySet};
use kernel_core::mm::page_table::{MapError, PTEFlags, PageTable};

fn rw() -> MapPermission {
    MapPermission { r: true, w: true, x: false, u: false }
}

#[test]
fn page_rounding() {
    assert_eq!(floor_page(0), 0);
    assert_eq!(floor_page(4095), 0);
    assert_eq!(floor_page(4096), 1);
    assert_eq!(ceil_page(0), 0);
    assert_eq!(ceil_page(1), 1);
    assert_eq!(ceil_page(4096), 1);
    assert_eq!(ceil_page(4097), 2);
}

#[test]
fn fresh_frames_are_zeroed_even_when_recycled() {
    let mut fa = FrameAllocator::new(10, 12);
    let a = fa.frame_alloc().unwrap();
    fa.write_byte(a, 7, 0xAB);
    assert_eq!(fa.read_byte(a, 7), 0xAB);
    fa.frame_dealloc(a);
    assert_eq!(fa.recycled_frames(), &vec![10]);
    let b = fa.frame_alloc().unwrap();
    assert_eq!(b, a);
    assert_eq!(fa.read_byte(b, 7), 0);
}

#[test]
fn page_table_map_creates_nodes_as_needed() {
    let mut fa = FrameAllocator::new(0, 16);
    let mut pt = PageTable::new(&mut fa).unwrap();
    assert_eq!(fa.free_count(), 15);
    assert_eq!(pt.count_missing_for(5), 2);
    let flags = PTEFlags { v: false, r: true, w: false, x: false, u: true, a: false, d: false };
    assert!(pt.map(5, 100, flags, &mut fa).is_ok());
    assert_eq!(fa.free_count(), 13);
    assert_eq!(pt.count_missing_for(6), 0);
    assert_eq!(pt.count_missing_for(512), 1);
    let pte = pt.translate(5).unwrap();
    assert_eq!(pte.ppn, 100);
    assert!(pte.flags.v && pte.flags.r && pte.flags.u && !pte.flags.w);
    assert!(matches!(pt.map(5, 101, flags, &mut fa), Err(MapError::AlreadyMapped)));
    assert!(matches!(pt.map(0x800_0000, 1, flags, &mut fa), Err(MapError::OutOfRange)));
    assert!(pt.unmap(5));
    assert!(!pt.unmap(5));
    // the leaf is still reached, but it is cleared
    assert!(!pt.translate(5).unwrap().is_valid());
    assert!(pt.translate(512).is_none());
    assert_eq!(fa.free_count(), 13);
}

#[test]
fn page_table_map_fails_without_frames() {
    let mut fa = FrameAllocator::new(0, 2);
    let mut pt = PageTable::new(&mut fa).unwrap();
    let flags = PTEFlags::empty();
    assert!(matches!(pt.map(1, 9, flags, &mut fa), Err(MapError::OutOfFrames)));
    assert_eq!(fa.free_count(), 1);
    assert!(PageTable::new(&mut fa).is_some());
    assert!(PageTable::new(&mut fa).is_none());
}

#[test]
fn insert_area_takes_pages_and_nodes() {
    let mut fa = FrameAllocator::new(100, 120);
    let mut ms = MemorySet::new_bare(&mut fa).unwrap();
    assert_eq!(ms.token(), 100);
    // two pages, one second-level node, one leaf node
    assert!(ms.insert_framed_area(0x1000_0000, 0x1000_2000, rw(), &mut fa));
    assert_eq!(fa.free_count(), 20 - 1 - 2 - 2);
    assert_eq!(ms.area_count(), 1);
    assert_eq!(ms.area(0).start_vpn(), 0x10000);
    assert_eq!(ms.area(0).end_vpn(), 0x10002);
    assert!(ms.area(0).map_perm().u);
    // overlapping range is refused, and nothing changes
    assert!(!ms.insert_framed_area(0x1000_1000, 0x1000_3000, rw(), &mut fa));
    assert_eq!(fa.free_count(), 15);
    assert_eq!(ms.area_count(), 1);
    // an identical area must be closed to user mode
    let user = MapPermission { r: true, w: false, x: false, u: true };
    assert!(!ms.insert_area(0x20000, 0x20001, MapType::Identical, user, &mut fa));
    assert!(ms.insert_area(0x10002, 0x10003, MapType::Identical, rw(), &mut fa));
    assert_eq!(ms.translate(0x10002).unwrap().ppn, 0x10002);
    assert_eq!(fa.free_count(), 15);
}

#[test]
fn insert_area_fails_when_frames_run_out() {
    let mut fa = FrameAllocator::new(0, 5);
    let mut ms = MemorySet::new_bare(&mut fa).unwrap();
    // two pages and two nodes are needed, four frames are free
    assert!(ms.insert_framed_area(0, 0x2000, rw(), &mut fa));
    assert_eq!(fa.free_count(), 0);
    assert!(!ms.insert_framed_area(0x2000, 0x3000, rw(), &mut fa));
}

#[test]
fn unmapped_frames_show_on_the_recycle_stack() {
    let mut fa = FrameAllocator::new(0, 32);
    let mut ms = MemorySet::new_bare(&mut fa).unwrap();
    assert!(ms.insert_framed_area(0x4000, 0x7000, rw(), &mut fa));
    let frames: Vec<usize> = ms.area(0).data_frames().clone();
    assert_eq!(frames.len(), 3);
    assert!(fa.recycled_frames().is_empty());
    assert!(ms.remove_area_by_start(4, &mut fa));
    assert_eq!(fa.recycled_frames(), &frames);
    assert_eq!(ms.area_count(), 0);
    assert!(!ms.translate(4).unwrap().is_valid());
    assert!(!ms.remove_area_by_start(4, &mut fa));
}

#[test]
fn unmap_area_needs_both_bounds() {
    let mut fa = FrameAllocator::new(0, 32);
    let mut ms = MemorySet::new_bare(&mut fa).unwrap();
    assert!(ms.insert_framed_area(0x4000, 0x6000, rw(), &mut fa));
    assert!(!ms.unmap_area(4, 5, &mut fa));
    assert!(ms.unmap_area(4, 6, &mut fa));
    assert!(!ms.unmap_area(4, 6, &mut fa));
}

#[test]
fn user_bytes_cross_pages() {
    let mut fa = FrameAllocator::new(0, 32);
    let mut ms = MemorySet::new_bare(&mut fa).unwrap();
    assert!(ms.insert_framed_area(0x4000, 0x6000, rw(), &mut fa));
    let data: Vec<u8> = vec![1, 2, 3, 4, 5, 6, 7, 8];
    assert!(ms.write_user_bytes(&mut fa, 0x4FFC, &data));
    assert_eq!(ms.read_user_bytes(&fa, 0x4FFC, 8), Some(data.clone()));
    let first = ms.area(0).data_frames()[0];
    let second = ms.area(0).data_frames()[1];
    assert_eq!(fa.read_byte(first, 4095), 4);
    assert_eq!(fa.read_byte(second, 0), 5);
    // beyond the area nothing may be touched, and nothing is written
    assert!(!ms.write_user_bytes(&mut fa, 0x5FFC, &data));
    assert_eq!(ms.read_user_bytes(&fa, 0x5FFC, 4), Some(vec![0, 0, 0, 0]));
    assert_eq!(ms.read_user_bytes(&fa, 0x5FFC, 5), None);
    assert!(ms.check_user_range(0x4000, 0x2000));
    assert!(!ms.check_user_range(0x3FFF, 2));
    assert!(ms.check_user_range(0x9000, 0));
}

#[test]
fn kernel_pages_are_closed_to_user_access() {
    let mut fa = FrameAllocator::new(0, 32);
    let mut ms = MemorySet::new_bare(&mut fa).unwrap();
    assert!(ms.insert_area(4, 5, MapType::Framed, rw(), &mut fa));
    assert_eq!(ms.read_user_bytes(&fa, 0x4000, 1), None);
    assert!(ms.translate_user(0x4000).is_none());
}

#[test]
fn strings_end_at_the_first_zero_byte() {
    let mut fa = FrameAllocator::new(0, 32);
    let mut ms = MemorySet::new_bare(&mut fa).unwrap();
    assert!(ms.insert_framed_area(0x4000, 0x6000, rw(), &mut fa));
    let text: Vec<u8> = b"hello\0world".to_vec();
    assert!(ms.write_user_bytes(&mut fa, 0x4FFD, &text));
    assert_eq!(ms.translated_str(&fa, 0x4FFD), Some(b"hello".to_vec()));
    assert_eq!(ms.translated_str(&fa, 0x5002), Some(Vec::new()));
    // a string that runs into an unmapped page does not end
    let tail: Vec<u8> = vec![b'x'; 4];
    assert!(ms.write_user_bytes(&mut fa, 0x5FFC, &tail));
    assert_eq!(ms.translated_str(&fa, 0x5FFC), None);
}

#[test]
fn copy_has_frames_of_its_own() {
    let mut fa = FrameAllocator::new(0, 64);
    let mut ms = MemorySet::new_bare(&mut fa).unwrap();
    assert!(ms.insert_framed_area(0x4000, 0x6000, rw(), &mut fa));
    assert!(ms.write_user_bytes(&mut fa, 0x4000, &vec![9, 8, 7]));
    assert_eq!(ms.count_clone_cost(), Some(1 + 2 + 2));
    let before = fa.free_count();
    let copy = ms.clone_cow_free(&mut fa).unwrap();
    assert_eq!(fa.free_count(), before - 5);
    assert_eq!(copy.read_user_bytes(&fa, 0x4000, 3), Some(vec![9, 8, 7]));
    assert!(copy.write_user_bytes(&mut fa, 0x4000, &vec![1]));
    assert_eq!(ms.read_user_bytes(&fa, 0x4000, 3), Some(vec![9, 8, 7]));
    assert_eq!(copy.read_user_bytes(&fa, 0x4000, 3), Some(vec![1, 8, 7]));
    assert_ne!(copy.area(0).data_frames()[0], ms.area(0).data_frames()[0]);
    copy.destroy(&mut fa);
    assert_eq!(fa.free_count(), before);
}

#[test]
fn copy_fails_without_frames() {
    let mut fa = FrameAllocator::new(0, 8);
    let mut ms = MemorySet::new_bare(&mut fa).unwrap();
    assert!(ms.insert_framed_area(0x4000, 0x6000, rw(), &mut fa));
    assert_eq!(fa.free_count(), 3);
    assert!(ms.clone_cow_free(&mut fa).is_none());
    assert_eq!(fa.free_count(), 3);
}

#[test]
fn heap_pages_grow_and_shrink() {
    let mut fa = FrameAllocator::new(0, 32);
    let mut ms = MemorySet::new_bare(&mut fa).unwrap();
    let perm = MapPermission { r: true, w: true, x: false, u: true };
    assert!(ms.grow_pages(8, 11, perm, &mut fa));
    assert_eq!(ms.area_count(), 3);
    assert_eq!((ms.area(2).start_vpn(), ms.area(2).end_vpn()), (10, 11));
    assert!(!ms.grow_pages(10, 12, perm, &mut fa));
    ms.shrink_pages(9, 11, &mut fa);
    assert_eq!(ms.area_count(), 1);
    assert_eq!(ms.area(0).start_vpn(), 8);
    assert!(ms.check_user_range(0x8000, 0x1000));
    assert!(!ms.check_user_range(0x9000, 1));
}

#[test]
fn byte_buffer_is_cut_at_page_boundaries() {
    let mut fa = FrameAllocator::new(0, 32);
    let mut ms = MemorySet::new_bare(&mut fa).unwrap();
    assert!(ms.insert_framed_area(0x4000, 0x7000, rw(), &mut fa));
    let frames: Vec<usize> = ms.area(0).data_frames().clone();
    let pieces = ms.translated_byte_buffer(0x4FF0, 0x1020).unwrap();
    let got: Vec<(usize, usize, usize)> = pieces.iter().map(|p| (p.ppn, p.offset, p.len)).collect();
    assert_eq!(got, vec![(frames[0], 0xFF0, 0x10), (frames[1], 0, 0x1000), (frames[2], 0, 0x10)]);
    assert!(ms.translated_byte_buffer(0x4000, 0).unwrap().is_empty());
    assert_eq!(ms.translated_byte_buffer(0x5000, 0x1000).unwrap().len(), 1);
    assert!(ms.translated_byte_buffer(0x6FFF, 2).is_none());
}
