use tiny_os::sched::{LazyRoundRobin, Scheduler, TaskManager};
use tiny_os::task::{
    get_tid, Arg, Args, ExitInfo, PrivilegeLevel, ProcessGroupID, ProcessID, TaskData, TaskState,
    TaskStateData, ThreadID, ThreadingError, TidCounter, MAX_ARGS,
};

#[test]
fn zero_args() {
    let a0 = Args::default();
    assert_eq!(
        a0,
        Args::new([
            Arg::default(),
            Arg::default(),
            Arg::default(),
            Arg::default(),
            Arg::default(),
            Arg::default()
        ])
    );
    for i in 0..MAX_ARGS {
        assert_eq!(a0.get(i).value(), 42);
    }
}

#[test]
fn args_get_mut() {
    let mut a = TaskData::default().args;
    *a.get_mut(0) = Arg::from_usize(7);
    assert_eq!(a.get(0).value(), 7);
    assert_eq!(a.get(1).value(), 42);
}

#[test]
fn tids_count_up_from_one() {
    let mut ids = TidCounter::new();
    let a = get_tid(&mut ids);
    let b = ThreadID::new(&mut ids);
    assert_eq!(a.get_inner(), 1);
    assert_eq!(b.get_inner(), 2);
    assert_eq!(ThreadID::from(9).get_inner(), 9);
    assert_eq!(ThreadID::default().get_inner(), 0);
    assert_eq!(ProcessID::from(3), ProcessID(3));
    assert_eq!(ProcessGroupID::from(4), ProcessGroupID(4));
}

#[test]
fn task_state_codes() {
    for v in 0u8..5 {
        assert_eq!(TaskState::from_u8(v).as_u8(), v);
    }
    assert_eq!(TaskState::new(), TaskState::Ready);
    assert_eq!(TaskState::default(), TaskState::Ready);
    assert_eq!(TaskState::from_u8(4), TaskState::Zombie);
    assert_eq!(PrivilegeLevel::default(), PrivilegeLevel::Unset);
    assert_eq!(TaskStateData::default(), TaskStateData::NoData);
}

#[test]
fn kill_block_wake() {
    let mut m = TaskManager::new();
    let t1 = ThreadID::from(1);
    let t2 = ThreadID::from(2);
    assert_eq!(m.add(t1, TaskState::Ready), None);
    assert_eq!(m.add(t2, TaskState::Running), None);
    assert_eq!(m.block(t1), Some(()));
    assert_eq!(m.thread_state(t1), Some(TaskState::Blocking));
    assert_eq!(m.wake(t1), Some(()));
    assert_eq!(m.thread_state(t1), Some(TaskState::Ready));
    assert_eq!(m.kill(t2, 3), Some(()));
    assert_eq!(m.thread_state(t2), Some(TaskState::Zombie));
    assert_eq!(m.block(t2), None);
    assert_eq!(m.wake(t2), Some(()));
    assert_eq!(m.thread_state(t2), Some(TaskState::Zombie));
    assert_eq!(m.kill(ThreadID::from(99), 0), None);
    m.cleanup();
    assert_eq!(m.thread_state(t2), None);
    assert_eq!(m.thread_state(t1), Some(TaskState::Ready));
    let _ = ExitInfo { exit_code: 3, signal: None };
}

#[test]
fn round_robin_switch() {
    let mut m = TaskManager::new();
    let t1 = ThreadID::from(1);
    let t2 = ThreadID::from(2);
    let t3 = ThreadID::from(3);
    m.add(t1, TaskState::Ready);
    m.add(t2, TaskState::Blocking);
    m.add(t3, TaskState::Ready);
    let mut rr = LazyRoundRobin::new();
    rr.reschedule(&m);
    assert_eq!(rr.switch(&mut m), Some(t1));
    assert_eq!(m.current_tid(), t1);
    assert_eq!(rr.switch(&mut m), Some(t3));
    assert_eq!(rr.switch(&mut m), Some(t1));
    m.block(t1);
    m.block(t3);
    assert_eq!(rr.switch(&mut m), None);
    rr.add_task(t2);
    m.wake(t2);
    assert_eq!(rr.switch(&mut m), Some(t2));
}

#[test]
fn update_queues_zombies_and_files_others() {
    let mut ids = TidCounter::new();
    let a = get_tid(&mut ids);
    let b = get_tid(&mut ids);
    let mut m = TaskManager::new();
    m.update(a, TaskState::Ready);
    assert_eq!(m.thread_state(a), Some(TaskState::Ready));
    m.update(a, TaskState::Sleeping);
    assert_eq!(m.thread_state(a), Some(TaskState::Sleeping));
    m.add(b, TaskState::Ready);
    m.update(b, TaskState::Zombie);
    // Only queued for removal: the table still says what it said.
    assert_eq!(m.thread_state(b), Some(TaskState::Ready));
    m.cleanup();
    assert_eq!(m.thread_state(b), None);
    assert_eq!(m.thread_state(a), Some(TaskState::Sleeping));
}

#[test]
fn threading_error_messages() {
    assert_eq!(ThreadingError::StackNotBuilt.message(), "the stack for a task could not be built");
    assert_eq!(ThreadingError::PageDirNotBuilt.message(), "the pagedir of a task could not be built");
    assert_eq!(
        ThreadingError::Unknown(String::from("boom")).message(),
        "unspecified threading error:\nboom"
    );
}

#[test]
fn thread_ids_are_fresh() {
    let mut ids = TidCounter::new();
    let a = ThreadID::new(&mut ids);
    let b = ThreadID::new(&mut ids);
    let c = ThreadID::new(&mut ids);
    assert_eq!((a.get_inner(), b.get_inner(), c.get_inner()), (1, 2, 3));
    assert!(a.get_inner() != 0 && a.get_inner() < b.get_inner() && b.get_inner() < c.get_inner());
}
