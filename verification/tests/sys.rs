use tiny_os::region::{
    map_region_pages, region_start, segment_page_flags, segment_plan, unmap_region_pages, Lookup,
    MapAction, MapError, MapStep, SegmentPlan,
};
use tiny_os::sys::{
    parse_descriptor, read_from_fd, read_from_step, spawn_ranges_valid, syscall_regs, ReadFromStep,
    mmap_file_len, mmap_plan, mmap_rollback, process_done, read_again, read_first, state_change,
    thread_join_start, valid_user_range, wait_outcome, wait_pid_start, MmapPlan, ReadStep,
    StateChange, SysErr,
    WaitStart,
};
use tiny_os::task::TaskState;

#[test]
fn state_changes_after_a_wait() {
    assert_eq!(state_change(Some(TaskState::Running)), StateChange::Wakeup);
    assert_eq!(state_change(Some(TaskState::Ready)), StateChange::Wakeup);
    assert_eq!(state_change(Some(TaskState::Blocking)), StateChange::Block);
    assert_eq!(state_change(Some(TaskState::Sleeping)), StateChange::Block);
    assert_eq!(state_change(Some(TaskState::Zombie)), StateChange::Exit);
    assert_eq!(state_change(None), StateChange::Exit);
    assert!(process_done(None));
    assert!(process_done(Some(TaskState::Zombie)));
    assert!(!process_done(Some(TaskState::Ready)));
}

#[test]
fn waits_begin() {
    assert_eq!(wait_pid_start(10, false, false), WaitStart::Refused(SysErr::Cancelled));
    assert_eq!(wait_pid_start(0, true, true), WaitStart::Unchanged);
    assert_eq!(wait_pid_start(5, true, true), WaitStart::Refused(SysErr::WouldBlock));
    assert_eq!(wait_pid_start(5, true, false), WaitStart::Wait { timer: true });
    assert_eq!(wait_pid_start(-1, true, false), WaitStart::Wait { timer: false });
    assert_eq!(thread_join_start(false, 5, false), WaitStart::Refused(SysErr::NoChild));
    assert_eq!(thread_join_start(true, 0, false), WaitStart::Unchanged);
    assert_eq!(thread_join_start(true, -3, true), WaitStart::Refused(SysErr::WouldBlock));
    assert_eq!(thread_join_start(true, -3, false), WaitStart::Wait { timer: false });
    assert_eq!(wait_outcome(false, Some(TaskState::Ready)), Err(SysErr::NoProcess));
    assert_eq!(wait_outcome(true, Some(TaskState::Sleeping)), Ok(StateChange::Block));
}

#[test]
fn reads_retry() {
    assert_eq!(read_first(3, 100, false), ReadStep::Return(3));
    assert_eq!(read_first(0, 0, true), ReadStep::Return(0));
    assert_eq!(read_first(0, -1, false), ReadStep::WouldBlock);
    assert_eq!(read_first(0, -1, true), ReadStep::Wait);
    assert_eq!(read_first(0, 20, false), ReadStep::Wait);
    assert_eq!(read_again(0, -1, 0, 50), ReadStep::Wait);
    assert_eq!(read_again(0, 10, 60, 50), ReadStep::Wait);
    assert_eq!(read_again(0, 10, 50, 50), ReadStep::Return(0));
    assert_eq!(read_again(7, -1, 0, 0), ReadStep::Return(7));
}

#[test]
fn mmap_addresses() {
    assert_eq!(
        mmap_plan(0x1000_0010, 0, false, 100),
        MmapPlan { addr: 0x1000_0010, base: 0x1000_1000, next_addr: 0x1000_1000 + 100 }
    );
    assert_eq!(
        mmap_plan(0x5000, 0x2001, true, 100),
        MmapPlan { addr: 0x2001, base: 0x3000, next_addr: 0x5000 }
    );
    assert_eq!(mmap_file_len(100, 40), 40);
    assert_eq!(mmap_file_len(10, 40), 10);
    assert_eq!(mmap_rollback(0x2001, 0x2001, 5), 0x3005);
    assert_eq!(mmap_rollback(0x9000, 0x2001, 5), 0x9000);
}


#[test]
fn region_pages() {
    assert_eq!(map_region_pages(0x1010, 0x1000), (1, 3));
    assert_eq!(map_region_pages(0x1000, 0x1000), (1, 2));
    assert_eq!(unmap_region_pages(0x1000, 0x1000), (1, 2));
    assert_eq!(unmap_region_pages(0x1010, 0x1000), (1, 3));
}

#[test]
fn region_walk() {
    let mut m = region_start(0x1000, 0x2000, 0x5010);
    assert_eq!((m.to_next, m.to_end, m.from_next, m.from_end), (1, 3, 5, 8));
    assert_eq!(m.target, 0x1010);
    assert_eq!(m.next(), MapStep::Pages { to: 0x1000, from: 0x5000 });
    assert_eq!(m.step(true, Lookup::Frame(0x9000), 0, 0), MapAction::Fail(MapError::AlreadyMapped));
    assert_eq!(m.step(false, Lookup::Missing, 0, 0), MapAction::Fail(MapError::NotInDonor));
    assert_eq!(m.step(false, Lookup::Frame(0x9000), 0, 0), MapAction::Page { to: 0x1000, frame: 0x9000 });
    assert_eq!((m.to_next, m.from_next, m.mapped), (2, 6, 0x1000));
    assert_eq!(m.next(), MapStep::Pages { to: 0x2000, from: 0x6000 });
    let below = m;
    let mut low = below;
    assert_eq!(
        low.step(false, Lookup::HugePage, 0x7000, 0),
        MapAction::Fail(MapError::HugePageBelowDirectMap)
    );
    assert_eq!(
        m.step(false, Lookup::HugePage, 0x4000, 0x4000),
        MapAction::Run { to: 0x2000, phys: 0x2000, count: 1 }
    );
    assert_eq!((m.to_next, m.from_next, m.mapped), (3, 7, 0x2000));
    assert_eq!(m.next(), MapStep::Done(0x1010));
}

#[test]
fn region_walk_covers_a_partial_last_page() {
    // 4196 bytes reach 100 bytes into a second page: both pages get mapped.
    let mut m = region_start(0, 4196, 0);
    assert_eq!((m.to_end, m.from_end), (2, 2));
    assert_eq!(m.step(false, Lookup::Frame(0x9000), 0, 0), MapAction::Page { to: 0, frame: 0x9000 });
    assert_eq!(m.next(), MapStep::Pages { to: 0x1000, from: 0x1000 });
    assert_eq!(m.step(false, Lookup::Frame(0xa000), 0, 0), MapAction::Page { to: 0x1000, frame: 0xa000 });
    assert_eq!(m.next(), MapStep::Done(0));
}

#[test]
fn user_ranges() {
    assert!(valid_user_range(0x1000, 4, 8, 0x10_0000));
    assert!(!valid_user_range(0, 4, 8, 0x10_0000));
    assert!(!valid_user_range(0x10_0000, 1, 1, 0x10_0000));
    assert!(!valid_user_range(0xF_FFF0, 4, 4, 0x10_0000));
    assert!(valid_user_range(0xF_FFF0, 3, 4, 0x10_0000));
}

#[test]
fn elf_segments() {
    assert_eq!(segment_page_flags(5), 5);
    assert_eq!(segment_page_flags(6), 0x8000_0000_0000_0007);
    assert_eq!(segment_page_flags(7), 7);
    assert_eq!(
        segment_plan(0x40_1000, 0x2100, 0x1000, 0x1000, 5, 0x3000),
        SegmentPlan {
            first_page: 0x401,
            last_page: 0x403,
            flags: 5,
            copy_from: 0x1000,
            copy_len: 0x1000,
            zero: Some((0x40_2000, 0x1100)),
        }
    );
    assert_eq!(segment_plan(0x1000, 0x10, 0, 0x10, 6, 0x10).zero, None);
}

#[test]
fn syscall_results_go_back_in_two_registers() {
    // success: the value in the first, the success code in the second
    assert_eq!(syscall_regs(3, 24, Ok(42), (7, 9), 0, -1), (42, 0));
    // failure: the first is left, the error goes in the second
    assert_eq!(syscall_regs(3, 24, Err(5), (7, 9), 0, -1), (7, 5));
    // an unknown number: the first is left, the fail code goes in the second
    assert_eq!(syscall_regs(25, 24, Ok(42), (7, 9), 0, -1), (7, -1));
    assert_eq!(syscall_regs(24, 24, Ok(1), (7, 9), 0, -1), (1, 0));
}

#[test]
fn spawn_ranges_must_lie_below_the_higher_half() {
    let hhdm = 0x1000;
    assert!(spawn_ranges_valid(0x100, 8, 0x200, 0x300, 0x400, 16, 16, hhdm));
    // a null path
    assert!(!spawn_ranges_valid(0, 8, 0x200, 0x300, 0x400, 16, 16, hhdm));
    // the actions record runs past the map
    assert!(!spawn_ranges_valid(0x100, 8, 0x200, 0x300, 0xff8, 16, 16, hhdm));
    // the environment record starts in it
    assert!(!spawn_ranges_valid(0x100, 8, 0x200, 0x1000, 0x400, 16, 16, hhdm));
}

#[test]
fn descriptors_parse_like_numbers() {
    assert_eq!(parse_descriptor(b"3"), Some(3));
    assert_eq!(parse_descriptor(b"+12"), Some(12));
    assert_eq!(parse_descriptor(b"4294967295"), Some(4294967295));
    assert_eq!(parse_descriptor(b"4294967296"), None);
    assert_eq!(parse_descriptor(b""), None);
    assert_eq!(parse_descriptor(b"+"), None);
    assert_eq!(parse_descriptor(b"1a"), None);
    assert_eq!(parse_descriptor(b"-1"), None);
    assert_eq!(read_from_fd(None, 0), 0);
    assert_eq!(read_from_fd(Some(b"7"), 0), 7);
    assert_eq!(read_from_fd(Some(b"seven"), 0), 0);
}

#[test]
fn read_from_steps() {
    assert_eq!(read_from_step(Err(()), true), ReadFromStep::Stop);
    assert_eq!(read_from_step(Ok(0), true), ReadFromStep::Wait);
    assert_eq!(read_from_step(Ok(0), false), ReadFromStep::Append(0));
    assert_eq!(read_from_step(Ok(5), true), ReadFromStep::Append(5));
}
