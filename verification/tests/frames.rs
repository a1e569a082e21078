use tiny_os::frames::{LinkedListFrameAllocator, BATCH_FRAMES, FRAME_SIZE};

#[test]
fn frames_come_last_in_first_out() {
    let mut a = LinkedListFrameAllocator::new(vec![(0x1000, 0x3000)]);
    assert_eq!(a.allocate_frame(), Some(0x3000));
    assert_eq!(a.allocate_frame(), Some(0x2000));
    assert_eq!(a.allocate_frame(), Some(0x1000));
    assert_eq!(a.allocate_frame(), None);
}

#[test]
fn only_whole_frames_of_a_region_are_used() {
    let mut a = LinkedListFrameAllocator::new(vec![(0x1800, 0x2000), (0x10000, 0xfff)]);
    assert_eq!(a.allocate_frame(), Some(0x2000));
    assert_eq!(a.allocate_frame(), None);
}

#[test]
fn regions_are_taken_in_order() {
    let mut a = LinkedListFrameAllocator::new(vec![(0x5000, 0x1000), (0x1000, 0x2000)]);
    assert_eq!(a.allocate_frame(), Some(0x2000));
    assert_eq!(a.allocate_frame(), Some(0x1000));
    assert_eq!(a.allocate_frame(), Some(0x5000));
    assert_eq!(a.allocate_frame(), None);
}

#[test]
fn freed_frame_is_handed_out_next() {
    let mut a = LinkedListFrameAllocator::new(vec![(0, 0x2000)]);
    assert_eq!(a.allocate_frame(), Some(0x1000));
    a.deallocate_frame(0x7000);
    assert_eq!(a.allocate_frame(), Some(0x7000));
    assert_eq!(a.allocate_frame(), Some(0));
}

#[test]
fn next_batch_is_taken_when_empty() {
    let n = BATCH_FRAMES as u64 + 1;
    let mut a = LinkedListFrameAllocator::new(vec![(0, n * FRAME_SIZE)]);
    assert_eq!(a.allocate_frame(), Some((BATCH_FRAMES as u64 - 1) * FRAME_SIZE));
    for _ in 1..BATCH_FRAMES {
        assert!(a.allocate_frame().is_some());
    }
    assert_eq!(a.allocate_frame(), Some(BATCH_FRAMES as u64 * FRAME_SIZE));
    assert_eq!(a.allocate_frame(), None);
}

#[test]
fn no_regions_no_frames() {
    let mut a = LinkedListFrameAllocator::new(Vec::new());
    assert_eq!(a.allocate_frame(), None);
}
