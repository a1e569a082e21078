use tiny_os::fs::{FSErrorKind, NodeType};
use tiny_os::tty::{Null, Pipe, PipeInternal, Read, TTYSource, Write};

#[test]
fn pipe_fifo() {
    let (mut inner, reader, writer) = Pipe::new();
    assert_eq!(writer.write(&mut inner, b"hello ", 0).unwrap(), 6);
    assert_eq!(writer.write(&mut inner, b"world", 0).unwrap(), 5);
    let mut buf = [0u8; 4];
    assert_eq!(reader.read(&mut inner, &mut buf, 0).unwrap(), 4);
    assert_eq!(&buf, b"hell");
    let mut buf = [0u8; 20];
    assert_eq!(reader.read(&mut inner, &mut buf, 0).unwrap(), 7);
    assert_eq!(&buf[..7], b"o world");
    assert_eq!(reader.read(&mut inner, &mut buf, 0).unwrap(), 0);
}

#[test]
fn pipe_ends_refuse() {
    let (mut inner, reader, writer) = Pipe::new();
    let mut buf = [0u8; 2];
    assert_eq!(*writer.read(&mut inner, &mut buf, 0).unwrap_err().kind(), FSErrorKind::PermissionDenied);
    assert_eq!(*reader.write(&mut inner, b"x", 0).unwrap_err().kind(), FSErrorKind::PermissionDenied);
    assert_eq!(reader.node_type(&inner), NodeType::Void);
    assert_eq!(writer.node_type(&inner), NodeType::Void);
}

#[test]
fn pipe_internal_traits() {
    let mut p = PipeInternal::new();
    assert!(p.write_all(b"abc", 0).is_ok());
    let mut buf = [0u8; 3];
    assert_eq!(Read::read(&mut p, &mut buf, 0).unwrap(), 3);
    assert_eq!(&buf, b"abc");
}

#[test]
fn null_source_reads_nothing() {
    let mut n = Null;
    let mut buf = [7u8; 2];
    assert_eq!(n.read_buf(&mut buf, 0).unwrap(), 0);
    assert_eq!(buf, [7, 7]);
    assert_eq!(n.node_type(), NodeType::Void);
}

struct OneByte(Option<u8>);

impl TTYSource for OneByte {
    fn read(&mut self) -> Option<u8> {
        self.0.take()
    }
}

#[test]
fn tty_source_read_buf() {
    let mut s = OneByte(Some(b'q'));
    let mut buf = [0u8; 3];
    assert_eq!(s.read_buf(&mut buf, 0).unwrap(), 1);
    assert_eq!(buf[0], b'q');
    assert_eq!(s.read_buf(&mut buf, 0).unwrap(), 0);
    let mut s = OneByte(Some(b'q'));
    let mut empty: [u8; 0] = [];
    assert_eq!(*s.read_buf(&mut empty, 0).unwrap_err().kind(), FSErrorKind::UnexpectedEOF);
}
