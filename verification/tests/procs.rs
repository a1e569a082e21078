use tiny_os::procs::{Exited, ProcessTree};
use tiny_os::sched::TaskManager;
use tiny_os::task::{ProcessGroupID, ProcessID, TaskState, ThreadID};

fn tid(n: u64) -> ThreadID {
    ThreadID::from(n)
}

fn setup() -> (ProcessTree, TaskManager) {
    let mut tree = ProcessTree::new();
    let mut tasks = TaskManager::new();
    tree.add(tid(1), ProcessID(5), ProcessGroupID(2), TaskState::Ready);
    tree.add(tid(2), ProcessID(6), ProcessGroupID(2), TaskState::Ready);
    tree.add(tid(3), ProcessID(7), ProcessGroupID(3), TaskState::Ready);
    for n in 1..4u64 {
        tasks.add(tid(n), TaskState::Ready);
    }
    (tree, tasks)
}

#[test]
fn tree_files_processes_by_group() {
    let (tree, _) = setup();
    assert_eq!(tree.pgrid(ProcessID(5)), Some(ProcessGroupID(2)));
    assert_eq!(tree.pgrid(ProcessID(7)), Some(ProcessGroupID(3)));
    assert_eq!(tree.pgrid(ProcessID(8)), None);
    assert_eq!(tree.process_state(ProcessID(6)), Some(TaskState::Ready));
    assert_eq!(tree.process_state(ProcessID(9)), None);
}

#[test]
fn re_adding_a_process_replaces_its_entry() {
    let (mut tree, _) = setup();
    tree.add(tid(4), ProcessID(5), ProcessGroupID(3), TaskState::Sleeping);
    assert_eq!(tree.pgrid(ProcessID(5)), Some(ProcessGroupID(3)));
    assert_eq!(tree.process_state(ProcessID(5)), Some(TaskState::Sleeping));
}

#[test]
fn cleanup_without_zombies_changes_nothing() {
    let (mut tree, tasks) = setup();
    let events = tree.cleanup_tree(&tasks);
    assert!(events.is_empty());
    assert_eq!(tree.process_state(ProcessID(5)), Some(TaskState::Ready));
}

#[test]
fn cleanup_prunes_dead_threads_and_processes() {
    let (mut tree, mut tasks) = setup();
    assert_eq!(tasks.kill(tid(2), 9), Some(()));
    let events = tree.cleanup_tree(&tasks);
    assert_eq!(events, vec![Exited::Thread(tid(2)), Exited::Process(ProcessID(6))]);
    assert_eq!(tree.process_state(ProcessID(6)), Some(TaskState::Zombie));
    assert_eq!(tree.process_state(ProcessID(5)), Some(TaskState::Ready));
    // A second cleanup finds nothing more to prune.
    assert!(tree.cleanup_tree(&tasks).is_empty());
}

#[test]
fn cleanup_reports_groups_in_order() {
    let (mut tree, mut tasks) = setup();
    assert_eq!(tasks.kill(tid(3), 0), Some(()));
    assert_eq!(tasks.kill(tid(1), 0), Some(()));
    let events = tree.cleanup_tree(&tasks);
    assert_eq!(
        events,
        vec![
            Exited::Thread(tid(1)),
            Exited::Process(ProcessID(5)),
            Exited::Thread(tid(3)),
            Exited::Process(ProcessID(7)),
        ]
    );
}

#[test]
fn kill_process_kills_its_threads() {
    let (mut tree, mut tasks) = setup();
    assert_eq!(tree.kill_process(ProcessID(6), &mut tasks), Some(()));
    assert_eq!(tasks.thread_state(tid(2)), Some(TaskState::Zombie));
    assert_eq!(tasks.thread_state(tid(1)), Some(TaskState::Ready));
    assert_eq!(tree.process_state(ProcessID(6)), Some(TaskState::Zombie));
    let events = tree.cleanup_tree(&tasks);
    assert_eq!(events, vec![Exited::Thread(tid(2)), Exited::Process(ProcessID(6))]);
}

#[test]
fn kill_unknown_process_fails() {
    let (mut tree, mut tasks) = setup();
    assert_eq!(tree.kill_process(ProcessID(42), &mut tasks), None);
    assert_eq!(tasks.thread_state(tid(1)), Some(TaskState::Ready));
}

#[test]
fn kill_process_with_unknown_thread_fails() {
    let (mut tree, mut tasks) = setup();
    let mut other = TaskManager::new();
    other.add(tid(1), TaskState::Ready);
    assert_eq!(tree.kill_process(ProcessID(6), &mut other), None);
    assert_eq!(tree.process_state(ProcessID(6)), Some(TaskState::Ready));
    assert_eq!(tree.kill_process(ProcessID(5), &mut tasks), Some(()));
}

#[test]
fn numbers_count_up_from_zero() {
    let mut tree = ProcessTree::new();
    assert_eq!(tree.next_pid(), ProcessID(0));
    assert_eq!(tree.next_pid(), ProcessID(1));
    assert_eq!(tree.next_pgrid(), ProcessGroupID(0));
    assert_eq!(tree.next_pid(), ProcessID(2));
}
