use tiny_os::files::FdTable;
use tiny_os::sys::{apply_fd_action, apply_fd_actions, dup, is_builtin, FdAction, SysErr};

fn std_table() -> FdTable<String> {
    let mut t = FdTable::new();
    t.add_fd(0, String::from("keyboard"));
    t.add_fd(1, String::from("fbbackend"));
    t.add_fd(2, String::from("serial"));
    t
}

#[test]
fn empty_table_starts_at_zero() {
    let t: FdTable<String> = FdTable::new();
    assert_eq!(t.next_fd(), 0);
    assert_eq!(t.fd(0), None);
}

#[test]
fn add_fd_replaces_and_returns_old() {
    let mut t = std_table();
    assert_eq!(t.add_fd(1, String::from("other")), Some(String::from("fbbackend")));
    assert_eq!(t.fd(1), Some(String::from("other")));
    assert_eq!(t.add_fd(7, String::from("x")), None);
    assert_eq!(t.next_fd(), 8);
}

#[test]
fn remove_fd_closes() {
    let mut t = std_table();
    assert_eq!(t.remove_fd(2), Some(String::from("serial")));
    assert_eq!(t.remove_fd(2), None);
    assert_eq!(t.fd(2), None);
    assert_eq!(t.next_fd(), 2);
}

#[test]
fn next_files_get_consecutive_descriptors() {
    let mut t = std_table();
    let r = t.add_next_file(String::from("pipe-read"));
    let w = t.add_next_file(String::from("pipe-write"));
    assert_eq!((r, w), (3, 4));
    assert_eq!(t.fd(3), Some(String::from("pipe-read")));
}

#[test]
fn next_fd_follows_the_greatest_not_a_gap() {
    let mut t = std_table();
    t.remove_fd(1);
    assert_eq!(t.next_fd(), 3);
}

#[test]
fn override_files_in_order() {
    let mut t = std_table();
    t.override_files(vec![
        (1, String::from("a")),
        (5, String::from("b")),
        (1, String::from("c")),
    ]);
    assert_eq!(t.fd(1), Some(String::from("c")));
    assert_eq!(t.fd(5), Some(String::from("b")));
    assert_eq!(t.fd(0), Some(String::from("keyboard")));
}

#[test]
fn dup_to_next_descriptor() {
    let mut t = std_table();
    assert_eq!(dup(&mut t, 1, -1), Ok(3));
    assert_eq!(t.fd(3), Some(String::from("fbbackend")));
}

#[test]
fn dup_to_chosen_descriptor() {
    let mut t = std_table();
    assert_eq!(dup(&mut t, 2, 0), Ok(0));
    assert_eq!(t.fd(0), Some(String::from("serial")));
}

#[test]
fn dup_of_closed_descriptor_fails() {
    let mut t = std_table();
    assert_eq!(dup(&mut t, 9, -1), Err(SysErr::BadFd));
    assert_eq!(t.next_fd(), 3);
}

#[test]
fn fd_actions_apply_in_order() {
    let parent = std_table();
    let mut t: FdTable<String> = FdTable::new();
    assert_eq!(apply_fd_action(&mut t, Some(&parent), FdAction::Inherit(1, 4)), Ok(()));
    assert_eq!(t.fd(4), Some(String::from("fbbackend")));
    assert_eq!(apply_fd_action(&mut t, Some(&parent), FdAction::Dup(4, 5)), Ok(()));
    assert_eq!(t.fd(5), Some(String::from("fbbackend")));
    assert_eq!(apply_fd_action(&mut t, None, FdAction::Open(String::from("log"), 4)), Ok(()));
    assert_eq!(t.fd(4), Some(String::from("log")));
    assert_eq!(apply_fd_action(&mut t, None, FdAction::Close(5)), Ok(()));
    assert_eq!(t.fd(5), None);
    assert_eq!(apply_fd_action(&mut t, None, FdAction::Clear), Ok(()));
    assert_eq!(t.next_fd(), 0);
}

#[test]
fn fd_actions_that_fail() {
    let parent = std_table();
    let mut t: FdTable<String> = FdTable::new();
    assert_eq!(apply_fd_action(&mut t, None, FdAction::Dup(0, 1)), Err(SysErr::NoFile));
    assert_eq!(apply_fd_action(&mut t, None, FdAction::Inherit(0, 1)), Err(SysErr::NoProcess));
    assert_eq!(apply_fd_action(&mut t, Some(&parent), FdAction::Inherit(8, 1)), Err(SysErr::NoFile));
    assert_eq!(t.fd(1), None);
}

#[test]
fn builtin_marker_is_recognised() {
    let mut buf = b"tiny_builtin".to_vec();
    buf.extend_from_slice(b"junk");
    assert!(is_builtin(&buf, 12));
    assert!(!is_builtin(&buf, 16));
    assert!(!is_builtin(b"tiny_builtix", 12));
    assert!(!is_builtin(b"tiny", 4));
}

#[test]
fn fd_action_list_runs_in_order() {
    let parent = std_table();
    let mut t: FdTable<String> = FdTable::new();
    let actions = vec![
        FdAction::Inherit(2, 0),
        FdAction::Open(String::from("log"), 1),
        FdAction::Dup(1, 2),
        FdAction::Close(1),
    ];
    assert_eq!(apply_fd_actions(&mut t, Some(&parent), actions), Ok(()));
    assert_eq!(t.fd(0), Some(String::from("serial")));
    assert_eq!(t.fd(1), None);
    assert_eq!(t.fd(2), Some(String::from("log")));
    assert_eq!(apply_fd_actions(&mut t, None, Vec::new()), Ok(()));
    assert_eq!(t.fd(2), Some(String::from("log")));
}

#[test]
fn fd_action_list_stops_at_the_first_failure() {
    let mut t: FdTable<String> = FdTable::new();
    let actions = vec![
        FdAction::Open(String::from("a"), 0),
        FdAction::Inherit(0, 3),
        FdAction::Dup(7, 1),
        FdAction::Open(String::from("b"), 5),
    ];
    assert_eq!(apply_fd_actions(&mut t, None, actions), Err(SysErr::NoProcess));
    assert_eq!(t.fd(0), Some(String::from("a")));
    assert_eq!(t.fd(5), None);
    let actions = vec![FdAction::Dup(7, 1), FdAction::Inherit(0, 3)];
    assert_eq!(apply_fd_actions(&mut t, None, actions), Err(SysErr::NoFile));
}
