use tiny_os::observer::{
    any_given, block_step, BlockAction, BlockState, QueuTypeCondition, WaitObserver, WaitQueue,
};
use tiny_os::sched::TaskManager;
use tiny_os::task::{TaskState, ThreadID};
use tiny_os::wait::{GenericWaitQueue, KeyBoardQueue, QueueType, ThreadWait, TimeWaitQueue, WaitCondition};

fn tid(n: u64) -> ThreadID {
    ThreadID::from(n)
}

fn blocked(ids: &[u64]) -> TaskManager {
    let mut m = TaskManager::new();
    for &i in ids {
        m.add(tid(i), TaskState::Blocking);
    }
    m
}

fn observer() -> WaitObserver {
    let mut o = WaitObserver::new();
    assert_eq!(o.add_queue(WaitQueue::Time(TimeWaitQueue::new()), QueueType::Timer), Some(()));
    assert_eq!(o.add_queue(WaitQueue::KeyBoard(KeyBoardQueue::new()), QueueType::KeyBoard), Some(()));
    o
}

#[test]
fn a_kind_has_one_queue() {
    let mut o = observer();
    assert!(o.has_queue(QueueType::Timer));
    assert_eq!(o.add_queue(WaitQueue::Generic(GenericWaitQueue::new()), QueueType::Timer), None);
    o.remove_queue(QueueType::Timer);
    assert!(!o.has_queue(QueueType::Timer));
    assert!(o.has_queue(QueueType::KeyBoard));
    o.remove_queue(QueueType::Timer);
    assert_eq!(o.add_queue(WaitQueue::Generic(GenericWaitQueue::new()), QueueType::Timer), Some(()));
}

#[test]
fn signal_without_queue_does_nothing() {
    let mut o = observer();
    let mut tasks = blocked(&[1]);
    assert_eq!(o.signal(QueueType::Lock(3), 0, false, &Vec::new(), &mut tasks), None);
    assert_eq!(tasks.thread_state(tid(1)), Some(TaskState::Blocking));
}

#[test]
fn enqueued_thread_is_woken_by_its_event() {
    let mut o = observer();
    let mut tasks = blocked(&[1, 2]);
    let conds = vec![
        QueuTypeCondition::with_cond(QueueType::Timer, WaitCondition::Time(50)),
        QueuTypeCondition::with_cond(QueueType::KeyBoard, WaitCondition::Keyboard),
    ];
    assert!(!o.enqueue(tid(1), &conds, 10, false, &vec![false, false], &tasks));
    assert_eq!(o.signal(QueueType::KeyBoard, 10, true, &Vec::new(), &mut tasks), Some(Vec::new()));
    assert_eq!(tasks.thread_state(tid(1)), Some(TaskState::Ready));
    // The timer queue still holds the thread until its time.
    assert_eq!(o.signal(QueueType::Timer, 40, false, &Vec::new(), &mut tasks), Some(Vec::new()));
    assert_eq!(tasks.thread_state(tid(2)), Some(TaskState::Blocking));
}

#[test]
fn given_condition_stops_filing() {
    let mut o = observer();
    let mut tasks = blocked(&[1]);
    let conds = vec![
        QueuTypeCondition::with_cond(QueueType::Timer, WaitCondition::Time(5)),
        QueuTypeCondition::with_cond(QueueType::KeyBoard, WaitCondition::Keyboard),
    ];
    assert!(o.enqueue(tid(1), &conds, 10, false, &vec![false, false], &tasks));
    assert!(any_given(&conds, 10, false, &vec![false, false], &tasks));
    assert!(!any_given(&conds, 1, false, &vec![false, false], &tasks));
    // Nothing was filed: signalling the keyboard wakes nobody.
    assert_eq!(o.signal(QueueType::KeyBoard, 10, true, &Vec::new(), &mut tasks), Some(Vec::new()));
    assert_eq!(tasks.thread_state(tid(1)), Some(TaskState::Blocking));
}

#[test]
fn generic_queue_asks_its_conditions() {
    let mut o = WaitObserver::new();
    let mut tasks = blocked(&[1, 2]);
    let kind = QueueType::Thread(tid(7));
    assert_eq!(o.add_queue(WaitQueue::Generic(GenericWaitQueue::new()), kind), Some(()));
    let exit = ThreadWait { exit: true, wakeup: false, block: false };
    let c1 = vec![QueuTypeCondition::with_cond(kind, WaitCondition::Thread(tid(2), exit))];
    let c2 = vec![QueuTypeCondition::with_cond(kind, WaitCondition::Generic(0x1000, 4))];
    assert!(!o.enqueue(tid(1), &c1, 0, false, &vec![false], &tasks));
    assert!(!o.enqueue(tid(2), &c2, 0, false, &vec![false], &tasks));
    assert_eq!(
        o.generic_conditions(kind),
        vec![WaitCondition::Thread(tid(2), exit), WaitCondition::Generic(0x1000, 4)]
    );
    assert_eq!(o.generic_conditions(QueueType::Timer), Vec::new());
    assert_eq!(o.signal(kind, 0, false, &vec![false, true], &mut tasks), Some(Vec::new()));
    assert_eq!(tasks.thread_state(tid(1)), Some(TaskState::Blocking));
    assert_eq!(tasks.thread_state(tid(2)), Some(TaskState::Ready));
    assert_eq!(o.generic_conditions(kind), Vec::new());
}

#[test]
fn condition_constructors() {
    let c = QueuTypeCondition::new(QueueType::File(9));
    assert_eq!(c.cond, WaitCondition::Always);
    assert_eq!(c.q_type, QueueType::File(9));
}

#[test]
fn blocking_steps() {
    // a condition already given: done at once
    assert_eq!(block_step(BlockState::Check(0), true, 5), (BlockState::Done, BlockAction::Nothing));
    // not given: block; blocked: check again; given meanwhile: wake again
    assert_eq!(block_step(BlockState::Check(0), false, 5), (BlockState::Block(0), BlockAction::Nothing));
    assert_eq!(block_step(BlockState::Block(0), true, 5), (BlockState::Recheck, BlockAction::Nothing));
    assert_eq!(block_step(BlockState::Recheck, true, 5), (BlockState::Done, BlockAction::Wake));
    assert_eq!(block_step(BlockState::Recheck, false, 5), (BlockState::Done, BlockAction::Nothing));
    // could not block: yield and try again, five times in all
    assert_eq!(block_step(BlockState::Block(3), false, 5), (BlockState::Check(4), BlockAction::Yield));
    assert_eq!(block_step(BlockState::Block(4), false, 5), (BlockState::Done, BlockAction::Yield));
    assert_eq!(block_step(BlockState::Done, true, 5), (BlockState::Done, BlockAction::Nothing));
}

#[test]
fn blocking_ends_within_the_tries() {
    // never blocked, never given: at most 3 * 5 + 1 steps
    let mut state = BlockState::Check(0);
    let mut steps = 0;
    while state != BlockState::Done {
        let seen = matches!(state, BlockState::Recheck);
        state = block_step(state, seen, 5).0;
        steps += 1;
    }
    assert!(steps <= 16);
    assert_eq!(steps, 10);
}
