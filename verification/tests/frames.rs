use kernel_core::mm::frame_allocator::FrameAllocator;

#[test]
fn frame_alloc_prefers_recycled() {
    let mut fa = FrameAllocator::new(100, 104);
    assert_eq!(fa.free_count(), 4);
    let a = fa.frame_alloc().unwrap();
    let b = fa.frame_alloc().unwrap();
    assert_eq!((a, b), (100, 101));
    fa.frame_dealloc(a);
    assert_eq!(fa.free_count(), 3);
    assert_eq!(fa.frame_alloc(), Some(100));
    assert_eq!(fa.frame_alloc(), Some(102));
    assert_eq!(fa.frame_alloc(), Some(103));
    assert_eq!(fa.frame_alloc(), None);
}
