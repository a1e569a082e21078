use tiny_os::sched::TaskManager;
use tiny_os::task::{TaskState, ThreadID};
use tiny_os::wait::{
    get_event, post_event, EventQueue, GenericWaitQueue, KeyBoardQueue, QueueType, ThreadWait, TimeWaitQueue,
    WaitCondition, WaitEvent, MAX_WAIT_EVENTS,
};

fn tid(n: u64) -> ThreadID {
    ThreadID::from(n)
}

fn blocked(ids: &[u64]) -> TaskManager {
    let mut m = TaskManager::new();
    for &i in ids {
        m.add(tid(i), TaskState::Blocking);
    }
    m
}

#[test]
fn timer_queue_wakes_due_threads_earliest_first() {
    let mut tasks = blocked(&[1, 2, 3]);
    let mut q = TimeWaitQueue::new();
    assert_eq!(q.enqueue(tid(1), WaitCondition::Time(30)), Some(()));
    assert_eq!(q.enqueue(tid(2), WaitCondition::Time(10)), Some(()));
    assert_eq!(q.enqueue(tid(3), WaitCondition::Time(20)), Some(()));
    assert_eq!(q.enqueue(tid(3), WaitCondition::Keyboard), None);
    // A thread that is not in the table cannot be woken.
    assert_eq!(q.enqueue(tid(9), WaitCondition::Time(15)), Some(()));
    let failed = q.signal(20, &mut tasks);
    assert_eq!(failed, vec![tid(9)]);
    assert_eq!(tasks.thread_state(tid(2)), Some(TaskState::Ready));
    assert_eq!(tasks.thread_state(tid(3)), Some(TaskState::Ready));
    assert_eq!(tasks.thread_state(tid(1)), Some(TaskState::Blocking));
    assert!(q.signal(29, &mut tasks).is_empty());
    assert_eq!(tasks.thread_state(tid(1)), Some(TaskState::Blocking));
    assert!(q.signal(30, &mut tasks).is_empty());
    assert_eq!(tasks.thread_state(tid(1)), Some(TaskState::Ready));
}

#[test]
fn keyboard_queue_wakes_everyone() {
    let mut tasks = blocked(&[4, 5]);
    let mut q = KeyBoardQueue::new();
    q.enqueue(tid(4), WaitCondition::Keyboard);
    q.enqueue(tid(5), WaitCondition::Keyboard);
    q.enqueue(tid(6), WaitCondition::Keyboard);
    assert_eq!(q.signal(&mut tasks), vec![tid(6)]);
    assert_eq!(tasks.thread_state(tid(4)), Some(TaskState::Ready));
    assert_eq!(tasks.thread_state(tid(5)), Some(TaskState::Ready));
    assert!(q.signal(&mut tasks).is_empty());
}

#[test]
fn generic_queue_wakes_only_given_conditions() {
    let mut tasks = blocked(&[1, 2, 3, 4]);
    tasks.add(tid(7), TaskState::Zombie);
    let mut q = GenericWaitQueue::new();
    let exit = ThreadWait { exit: true, wakeup: false, block: false };
    q.enqueue(tid(1), WaitCondition::Thread(tid(7), exit));
    q.enqueue(tid(2), WaitCondition::Time(100));
    q.enqueue(tid(3), WaitCondition::Generic(5, 0));
    q.enqueue(tid(4), WaitCondition::Always);
    assert_eq!(q.conditions().len(), 4);
    let failed = q.signal(50, false, &vec![false, false, true, false], &mut tasks);
    assert!(failed.is_empty());
    assert_eq!(tasks.thread_state(tid(1)), Some(TaskState::Ready));
    assert_eq!(tasks.thread_state(tid(2)), Some(TaskState::Blocking));
    assert_eq!(tasks.thread_state(tid(3)), Some(TaskState::Ready));
    assert_eq!(tasks.thread_state(tid(4)), Some(TaskState::Ready));
    // The queue is emptied: the thread whose time had not come is dropped.
    assert!(q.conditions().is_empty());
}

#[test]
fn conditions_given() {
    let mut tasks = TaskManager::new();
    tasks.add(tid(1), TaskState::Running);
    let wake = ThreadWait { exit: false, wakeup: true, block: false };
    let block = ThreadWait { exit: false, wakeup: false, block: true };
    assert!(WaitCondition::Thread(tid(1), wake).is_given(0, false, &tasks, false));
    assert!(!WaitCondition::Thread(tid(1), block).is_given(0, false, &tasks, false));
    assert!(WaitCondition::Thread(tid(2), block).is_given(0, false, &tasks, false));
    assert!(WaitCondition::Time(5).is_given(5, false, &tasks, false));
    assert!(!WaitCondition::Time(6).is_given(5, false, &tasks, false));
    assert!(WaitCondition::Keyboard.is_given(0, true, &tasks, false));
    assert!(!WaitCondition::Keyboard.is_given(0, false, &tasks, true));
    assert!(WaitCondition::Generic(1, 2).is_given(0, false, &tasks, true));
}

#[test]
fn events_come_out_in_posting_order() {
    let mut q = EventQueue::new();
    assert!(get_event(&mut q).is_none());
    assert!(post_event(&mut q, WaitEvent::with_data(QueueType::Timer, 1)).is_ok());
    assert!(post_event(&mut q, WaitEvent::new(QueueType::Process(tiny_os::task::ProcessID(4)))).is_ok());
    assert_eq!(get_event(&mut q), Some(WaitEvent::with_data(QueueType::Timer, 1)));
    assert_eq!(get_event(&mut q), Some(WaitEvent::with_data(QueueType::Process(tiny_os::task::ProcessID(4)), 0)));
    assert!(get_event(&mut q).is_none());
}

#[test]
fn full_event_queue_hands_the_event_back() {
    let mut q = EventQueue::new();
    for i in 0..MAX_WAIT_EVENTS as u64 {
        assert!(post_event(&mut q, WaitEvent::with_data(QueueType::Lock(i), i)).is_ok());
    }
    let e = post_event(&mut q, WaitEvent::with_data(QueueType::KeyBoard, 99));
    assert_eq!(e, Err(WaitEvent::with_data(QueueType::KeyBoard, 99)));
    assert_eq!(get_event(&mut q), Some(WaitEvent::with_data(QueueType::Lock(0), 0)));
    assert!(post_event(&mut q, WaitEvent::with_data(QueueType::KeyBoard, 99)).is_ok());
}
