use tiny_os::mem::{align_up, virt_with_offset, PhysAddr, VirtAddr};
use tiny_os::shapes::{isqrt, Circle, Line, Point, Rect};
use tiny_os::term::{PositionError, TermCharBuffer, TermDraw, TermPixel, TermPosition, TermWriter};
use tiny_os::{run_exit_code, test_verdict, ElfError, KernelError, QemuExitCode, TestVerdict};
use tiny_os::fs::{ErrorCause, FSError, FSErrorKind};
use tiny_os::wait::{QueueType, WaitEvent};
use tiny_os::path::Path;

#[test]
fn align() {
    let x = 2;
    assert_eq!(align_up(x, 8), 8);
    let x = 25;
    assert_eq!(align_up(x, 16), 32);
    assert_eq!(align_up(x, 64), 64);
    assert_eq!(align_up(4096, 4096), 4096);
    assert_eq!(align_up(0, 1), 0);
}

#[test]
fn addresses() {
    assert_eq!(virt_with_offset(0x1000, 0xffff_8000_0000_0000).into_inner(), 0xffff_8000_0000_1000);
    assert_eq!(VirtAddr::from_phys(PhysAddr::new(5)).into_inner(), 5);
    assert_eq!(VirtAddr::new(9), VirtAddr::new(9));
}

#[test]
fn square_roots() {
    assert_eq!(isqrt(0), 0);
    assert_eq!(isqrt(15), 3);
    assert_eq!(isqrt(16), 4);
    assert_eq!(isqrt(usize::MAX), (1usize << (usize::BITS / 2)) - 1);
}

#[test]
fn line_len() {
    let l = Line { start: Point { x: 1, y: 1 }, end: Point { x: 3, y: 5 } };
    // (2 << 2) + (4 << 2) = 24, whose root is 4
    assert_eq!(l.len(), 4);
    assert_eq!(l.segments(), vec![(l.start, l.end)]);
}

#[test]
fn rect_sides() {
    let r = Rect { top_left: Point { x: 0, y: 0 }, bottom_right: Point { x: 2, y: 3 } };
    let s = r.segments();
    assert_eq!(s.len(), 4);
    assert_eq!(s[0], (Point { x: 0, y: 0 }, Point { x: 2, y: 0 }));
    assert_eq!(s[3], (Point { x: 0, y: 3 }, Point { x: 2, y: 3 }));
}

#[test]
fn circle_pixels() {
    let c = Circle { center: Point { x: 10, y: 10 }, rad: 0 };
    assert_eq!(c.pixels(), vec![Point { x: 10, y: 10 }; 8]);
    let c = Circle { center: Point { x: 10, y: 10 }, rad: 2 };
    let px = c.pixels();
    assert_eq!(px.len(), 16);
    assert_eq!(px[0], Point { x: 12, y: 10 });
    assert!(px.contains(&Point { x: 8, y: 10 }));
    let near_edge = Circle { center: Point { x: 0, y: 0 }, rad: 1 };
    assert!(near_edge.pixels().contains(&Point { x: 0, y: 0 }));
    assert!(Circle { center: Point { x: 0, y: 0 }, rad: usize::MAX }.pixels().is_empty());
}

#[test]
fn points() {
    let p = Point::saturated_add_from_components(5, -10, 3, 4);
    assert_eq!(p, Point { x: 0, y: 7 });
    let q = Point::saturated_add_from_components(isize::MAX, 1, 0, 0);
    assert_eq!(q.x, isize::MAX as usize);
    assert_eq!(Point { x: 1, y: 2 }.plus(Point { x: 3, y: 4 }), Point { x: 4, y: 6 });
    assert_eq!(Point { x: 5, y: 5 }.minus(Point { x: 3, y: 4 }), Point { x: 2, y: 1 });
}

#[test]
fn buf_shifts() {
    let mut buf = TermCharBuffer::new(8, 4);
    assert!(buf.is_empty());
    let mut cur = TermPosition::new(0, 0, 8, 4);
    for (row, word) in ["", "test", "42", "world"].iter().enumerate() {
        cur.row = TermPixel { inner: row };
        for (col, ch) in word.chars().enumerate() {
            cur.col = TermPixel { inner: col };
            buf.push_dumb(ch, &cur).unwrap();
        }
    }
    buf.shift_up();
    assert_eq!(buf.get(&TermPosition::new(0, 0, 8, 4)).unwrap(), Some('t'));
    assert_eq!(buf.get_range_from_row(&TermPixel { inner: 0 }), 0..4);
    buf.shift_up();
    assert_eq!(buf.get(&TermPosition::new(0, 1, 8, 4)).unwrap(), Some('2'));
    assert_eq!(buf.get(&TermPosition::new(0, 2, 8, 4)).unwrap(), None);
    buf.shift_up();
    assert_eq!(buf.get_range_from_row(&TermPixel { inner: 0 }), 0..5);
    buf.shift_up();
    assert!(buf.is_empty());
}

#[test]
fn term_push_smart() {
    let mut buf = TermCharBuffer::new(3, 2);
    let mut cur = TermPosition::new(0, 0, 3, 2);
    assert_eq!(buf.force_push_smart('a', &mut cur), Ok(()));
    cur.col = TermPixel { inner: 3 };
    assert_eq!(buf.force_push_smart('b', &mut cur), Err(PositionError::NewLine));
    assert_eq!(cur.row.inner, 1);
    assert_eq!(cur.col.inner, 0);
    cur.col = TermPixel { inner: 3 };
    assert_eq!(buf.force_push_smart('c', &mut cur), Err(PositionError::PrevLine));
    assert_eq!(cur.row.inner, 1);
    assert_eq!(buf.get(&TermPosition::new(0, 0, 3, 2)).unwrap(), Some('b'));
    assert_eq!(buf.get(&TermPosition::new(1, 0, 3, 2)).unwrap(), Some('c'));
    let far = TermPosition::new(5, 0, 3, 2);
    assert_eq!(buf.get(&far), Err(PositionError::OutOfBounds(far)));
    buf.clear_col(&TermPixel { inner: 0 });
    assert!(buf.is_empty());
    buf.push_dumb('z', &TermPosition::new(1, 2, 3, 2)).unwrap();
    buf.shift_down();
    assert!(buf.is_empty());
    buf.push_dumb('z', &TermPosition::new(0, 2, 3, 2)).unwrap();
    buf.clear_line(&TermPixel { inner: 0 });
    assert!(buf.is_empty());
    buf.push_dumb('y', &TermPosition::new(0, 0, 3, 2)).unwrap();
    buf.clear();
    assert!(buf.is_empty());
}

#[test]
fn term_positions() {
    let mut p = TermPosition::new(0, 0, 80, 25);
    assert_eq!(p.shift_checked(25, 40), Ok(()));
    assert_eq!((p.row.inner, p.col.inner), (2, 2));
    let mut q = TermPosition::new(0, 0, 2, 3);
    assert_eq!(q.shift_checked(10, 60), Ok(()));
    assert_eq!((q.row.inner, q.col.inner), (2, 0));
    let mut z = TermPosition::new(0, 0, 2, 2);
    assert_eq!(z.shift_checked(10, 60), Err(PositionError::NewLine));
    assert_eq!(TermPixel { inner: 3 }.as_ipixel(10), 30);
    assert_eq!(TermPixel::from_ipixel(45, 20).inner, 2);
}

#[test]
fn error_types() {
    assert_eq!(QemuExitCode::Success.code(), 0x10);
    assert_eq!(QemuExitCode::Failed.code(), 0x11);
    let k: KernelError = FSError::simple(FSErrorKind::Other).into();
    assert!(matches!(k, KernelError::IO(_)));
    assert_eq!(ElfError::Unknown, ElfError::Unknown);
}

#[test]
fn wait_events() {
    let e: WaitEvent<u64> = WaitEvent::new(QueueType::Timer);
    assert_eq!(e.data, 0);
    let e = WaitEvent::with_data(QueueType::Lock(3), 9u64);
    assert_eq!(e.event_type, QueueType::Lock(3));
    assert_eq!(e.data, 9);
    assert!(matches!(QueueType::file(Path::new("/a")), QueueType::File(_)));
}

#[test]
fn line_pixels_walk_from_start_to_end() {
    let p = |x: usize, y: usize| Point { x, y };
    let shallow = Line { start: p(0, 0), end: p(3, 1) };
    assert_eq!(shallow.pixels(), vec![p(0, 0), p(1, 0), p(2, 1), p(3, 1)]);
    let up = Line { start: p(2, 5), end: p(2, 2) };
    assert_eq!(up.pixels(), vec![p(2, 5), p(2, 4), p(2, 3), p(2, 2)]);
    let dot = Line { start: p(4, 4), end: p(4, 4) };
    assert_eq!(dot.pixels(), vec![p(4, 4)]);
    let diagonal = Line { start: p(3, 0), end: p(0, 3) };
    assert_eq!(diagonal.pixels(), vec![p(3, 0), p(2, 1), p(1, 2), p(0, 3)]);
}

#[test]
fn test_verdicts() {
    assert_eq!(test_verdict(Some(0), false), TestVerdict::Passed);
    assert_eq!(test_verdict(Some(1), false), TestVerdict::Failed);
    assert_eq!(test_verdict(Some(1), true), TestVerdict::PanickedAsExpected);
    assert_eq!(test_verdict(Some(0), true), TestVerdict::Failed);
    assert_eq!(test_verdict(None, true), TestVerdict::PanickedAsExpected);
    assert_eq!(test_verdict(None, false), TestVerdict::Failed);
    assert_eq!(run_exit_code(true), QemuExitCode::Failed);
    assert_eq!(run_exit_code(false).code(), 0x10);
}

const MAX_CHARS_X: usize = 127;
const MAX_CHARS_Y: usize = 39;

fn row_of(term: &TermWriter, row: usize) -> Vec<Option<char>> {
    (0..MAX_CHARS_X)
        .map(|col| term.buffer().get(&TermPosition::new(row, col, MAX_CHARS_X, MAX_CHARS_Y)).unwrap())
        .collect()
}

#[test]
fn print_to_buffer() {
    let mut term = TermWriter::new(MAX_CHARS_X, MAX_CHARS_Y);
    assert!(term.buffer().is_empty());
    term.write_str("test\n");
    let mut row = vec![None; MAX_CHARS_X];
    row[0].replace('t');
    row[1].replace('e');
    row[2].replace('s');
    row[3].replace('t');
    assert_eq!(row, row_of(&term, 0));
    assert_eq!(term.cursor().row, TermPixel { inner: 1 });
    assert_eq!(term.cursor().col, TermPixel { inner: 0 });
    term.write_str("test2");
    assert_eq!(row, row_of(&term, 0));
    row[4].replace('2');
    assert_eq!(row, row_of(&term, 1));
    assert_eq!(term.cursor().row, TermPixel { inner: 1 });
    assert_eq!(term.cursor().col, TermPixel { inner: 5 });
    term.write_str("hey");
    row[5].replace('h');
    row[6].replace('e');
    row[7].replace('y');
    assert_eq!(row, row_of(&term, 1));
    assert_eq!(term.cursor().row, TermPixel { inner: 1 });
    assert_eq!(term.cursor().col, TermPixel { inner: 8 });
}

#[test]
fn print_many() {
    let mut term = TermWriter::new(MAX_CHARS_X, MAX_CHARS_Y);
    for _ in 0..300 {
        term.write_str(".");
    }
    // 300 = 127 + 127 + 46: the third row holds the rest.
    assert_eq!(term.cursor().row, TermPixel { inner: 2 });
    assert_eq!(term.cursor().col, TermPixel { inner: 46 });
}

#[test]
fn term_writer_draws() {
    let mut term = TermWriter::new(3, 2);
    assert_eq!(term.write_str("ab"), vec![TermDraw::Char('a', 0, 0), TermDraw::Char('b', 0, 1)]);
    // A tab is three spaces: the row fills, then wraps.
    assert_eq!(
        term.write_str("\t"),
        vec![TermDraw::Char(' ', 0, 2), TermDraw::Row(1, 1), TermDraw::Char(' ', 1, 1)]
    );
    // On the last row a new line scrolls the grid up.
    assert_eq!(term.write_str("\n"), vec![TermDraw::ScrollUp]);
    assert_eq!(term.cursor().row, TermPixel { inner: 1 });
    assert_eq!(term.cursor().col, TermPixel { inner: 0 });
    assert_eq!(term.write_str("xyz"), vec![
        TermDraw::Char('x', 1, 0),
        TermDraw::Char('y', 1, 1),
        TermDraw::Char('z', 1, 2),
    ]);
    // Past the end of the last row the grid scrolls and everything is redrawn.
    assert_eq!(term.write_str("w"), vec![TermDraw::All]);
    assert_eq!(term.write_str("\r"), vec![TermDraw::BlankRow(1)]);
    // A backspace steps back to the last filled cell, in the row above.
    assert_eq!(term.clear_one(), TermDraw::BlankCell(0, 2));
}

#[test]
fn term_prevline_moves_text_down() {
    let mut term = TermWriter::new(3, 2);
    term.write_str("ab");
    let mut out = Vec::new();
    term.prevline(&mut out);
    assert_eq!(out, vec![TermDraw::All]);
    let top = TermPosition::new(0, 0, 3, 2);
    let below = TermPosition::new(1, 0, 3, 2);
    assert_eq!(term.buffer().get(&top), Ok(None));
    assert_eq!(term.buffer().get(&below), Ok(Some('a')));
    assert_eq!(term.cursor().col, TermPixel { inner: 2 });
}

#[test]
fn error_messages() {
    assert_eq!(FSError::simple(FSErrorKind::NotFound).message(), "Node not found");
    assert_eq!(
        FSError::with_message(FSErrorKind::NotFound, "x").message(),
        "Error with kind: Node not found, msg: x"
    );
    assert_eq!(
        FSError::custom(FSErrorKind::AlreadyExists, ErrorCause::MountExists).message(),
        "Custom error with kind: Node exists, err: the mount already exists. The old mount was swapped out and returned"
    );
    assert_eq!(FSErrorKind::NotSupported.text(), "This Operation is not supported");
    assert_eq!(
        ErrorCause::DeviceExists(3).text(),
        "the device is already registered. the old device was swapped out and returned"
    );
}
