use tiny_os::fd::File;
use tiny_os::fs::{FSErrorKind, OpenOptions, UnlinkOptions};
use tiny_os::path::Path;
use tiny_os::ramfs::{Opened, RamFS};

fn file_of(r: Opened) -> File {
    match r {
        Opened::File(f) => f,
        Opened::FollowLink(_) => panic!("expected a file"),
    }
}

#[test]
fn ramfs_basic() {
    let mut ramfs = RamFS::new(0);
    assert!(ramfs.open(Path::new("/foo/bar"), OpenOptions::default(), 0).is_err());
    assert!(ramfs
        .open(Path::new("/foo"), OpenOptions::CREATE_DIR().union(OpenOptions::READ()), 0)
        .is_ok());
    assert!(ramfs
        .open(
            Path::new("/foobar/bar/baz.txt"),
            OpenOptions::CREATE_ALL().union(OpenOptions::READ()),
            0
        )
        .is_ok());
    assert!(ramfs.open(Path::new("/foobar/bar"), OpenOptions::READ(), 0).is_ok());
    assert!(ramfs
        .unlink(
            Path::new("/foobar"),
            UnlinkOptions::RECURSIVE().union(UnlinkOptions::FORCE())
        )
        .is_ok());
    assert!(ramfs.open(Path::new("/foobar/bar/baz.txt"), OpenOptions::READ(), 0).is_err());
    assert!(ramfs.unlink(Path::new("/"), UnlinkOptions::RECURSIVE()).is_err());
}

#[test]
fn ramfs_retrieval() {
    let mut ramfs = RamFS::new(0);
    let mut bar = file_of(
        ramfs
            .open(
                Path::new("/foo/bar.txt"),
                OpenOptions::CREATE_ALL().union(OpenOptions::WRITE()),
                0,
            )
            .unwrap(),
    );
    assert_eq!(
        bar.write_continuous(&mut ramfs, "hello world".as_bytes(), 1).unwrap(),
        "hello world".as_bytes().len()
    );
    bar.set_cursor(0);

    let mut buf = vec![0u8; 30];
    let n_read = bar.read_continuous(&ramfs, &mut buf).unwrap();
    assert_eq!(n_read, "hello_world".as_bytes().len());
    assert_eq!(std::str::from_utf8(&buf[..n_read]).unwrap(), "hello world");

    assert_eq!(bar.read_continuous(&ramfs, &mut buf[n_read..]).unwrap(), 0);
    let mut foobar = file_of(
        ramfs
            .open(
                Path::new("/foo/foobar"),
                OpenOptions::CREATE().union(OpenOptions::READ()),
                0,
            )
            .unwrap(),
    );
    assert!(foobar
        .write_continuous(&mut ramfs, "hello world/n/they".as_bytes(), 2)
        .is_err());
    assert_eq!(foobar.read_continuous(&ramfs, &mut buf).unwrap(), 0);
}

#[test]
fn read_dir() {
    let mut ramfs = RamFS::new(0);
    let dir = OpenOptions::CREATE_DIR();
    let file = OpenOptions::CREATE();
    ramfs.open(Path::new("/foo"), dir, 0).unwrap();
    ramfs.open(Path::new("/foobar"), file, 0).unwrap();
    ramfs
        .open(Path::new("/this is a veeery long directory name!!"), dir, 0)
        .unwrap();
    ramfs.open(Path::new("/short"), dir, 0).unwrap();
    let mut buf = Vec::new();
    let n = ramfs.read_to_end(0, &mut buf, 0).unwrap();
    let expected = "foo\tfoobar\tthis is a veeery long directory name!!\tshort\t";
    assert_eq!(n, expected.len());
    assert_eq!(&buf[..n], expected.as_bytes());
}

#[test]
fn read_dir_in_pieces() {
    let mut ramfs = RamFS::new(0);
    ramfs.open(Path::new("/ab"), OpenOptions::CREATE(), 0).unwrap();
    ramfs.open(Path::new("/cde"), OpenOptions::CREATE(), 0).unwrap();
    let mut buf = vec![0u8; 4];
    // only the first entry fits
    assert_eq!(ramfs.read(0, &mut buf, 0).unwrap(), 3);
    assert_eq!(&buf[..3], b"ab\t");
    // from offset 3 the first entry is skipped
    assert_eq!(ramfs.read(0, &mut buf, 3).unwrap(), 4);
    assert_eq!(&buf[..4], b"cde\t");
    // past the listing nothing is left
    assert_eq!(ramfs.read(0, &mut buf, 7).unwrap(), 0);
}

#[test]
fn write_past_end_fills_with_zeros() {
    let mut ramfs = RamFS::new(0);
    let f = file_of(ramfs.open(Path::new("/f"), OpenOptions::CREATE().union(OpenOptions::WRITE()), 0).unwrap());
    assert_eq!(f.write(&mut ramfs, b"xy", 3, 5).unwrap(), 2);
    let mut buf = vec![9u8; 8];
    assert_eq!(f.read(&ramfs, &mut buf, 0).unwrap(), 5);
    assert_eq!(&buf[..5], &[0, 0, 0, b'x', b'y']);
    assert_eq!(ramfs.fstat(f.node).size, 5);
    assert_eq!(ramfs.fstat(f.node).t_mod, 5);
}

#[test]
fn read_past_end_fails() {
    let mut ramfs = RamFS::new(0);
    let f = file_of(ramfs.open(Path::new("/f"), OpenOptions::CREATE().union(OpenOptions::WRITE()), 0).unwrap());
    f.write(&mut ramfs, b"abc", 0, 1).unwrap();
    let mut buf = vec![0u8; 4];
    let e = f.read(&ramfs, &mut buf, 4).unwrap_err();
    assert_eq!(*e.kind(), FSErrorKind::UnexpectedEOF);
    assert_eq!(f.read(&ramfs, &mut buf, 3).unwrap(), 0);
}

#[test]
fn open_missing_is_not_found() {
    let mut ramfs = RamFS::new(0);
    let e = ramfs.open(Path::new("/nope"), OpenOptions::READ(), 0).err().unwrap();
    assert_eq!(*e.kind(), FSErrorKind::NotFound);
}

#[test]
fn unlink_dir_needs_recursive() {
    let mut ramfs = RamFS::new(0);
    ramfs.open(Path::new("/d"), OpenOptions::CREATE_DIR(), 0).unwrap();
    let e = ramfs.unlink(Path::new("/d"), UnlinkOptions::empty()).err().unwrap();
    assert_eq!(*e.kind(), FSErrorKind::IsADir);
    assert!(ramfs.unlink(Path::new("/d"), UnlinkOptions::RECURSIVE()).is_ok());
    let e = ramfs.open(Path::new("/d"), OpenOptions::READ(), 0).err().unwrap();
    assert_eq!(*e.kind(), FSErrorKind::NotFound);
}

#[test]
fn unlink_below_a_file_is_denied() {
    let mut ramfs = RamFS::new(0);
    ramfs.open(Path::new("/f"), OpenOptions::CREATE(), 0).unwrap();
    // the parent of "/f/" is the file "/f", which cannot be entered
    let e = ramfs.unlink(Path::new("/f/"), UnlinkOptions::empty()).err().unwrap();
    assert_eq!(*e.kind(), FSErrorKind::PermissionDenied);
}

#[test]
fn create_in_readonly_dir_denied() {
    let mut ramfs = RamFS::new(0);
    ramfs.open(Path::new("/d"), OpenOptions::CREATE_DIR(), 0).unwrap();
    let d = file_of(ramfs.open(Path::new("/d"), OpenOptions::READ(), 0).unwrap());
    ramfs.update_perms(d.node, tiny_os::ramfs::NodePermissions::from_bits_retain(5), tiny_os::ramfs::PermUpdateStrategy::OVERWRITE);
    let e = ramfs.open(Path::new("/d/x"), OpenOptions::CREATE(), 0).err().unwrap();
    assert_eq!(*e.kind(), FSErrorKind::PermissionDenied);
}

#[test]
fn link_follow_and_no_follow() {
    let mut ramfs = RamFS::new(0);
    let l = file_of(
        ramfs
            .open(Path::new("/l"), OpenOptions::CREATE_LINK().union(OpenOptions::WRITE()), 0)
            .unwrap(),
    );
    l.write(&mut ramfs, b"/target", 0, 1).unwrap();
    match ramfs.open(Path::new("/l"), OpenOptions::READ(), 0).unwrap() {
        Opened::FollowLink(p) => assert_eq!(p.as_str(), "/target"),
        Opened::File(_) => panic!("expected a link to follow"),
    }
    let nf = file_of(
        ramfs
            .open(Path::new("/l"), OpenOptions::READ().with_no_follow_symlink(), 0)
            .unwrap(),
    );
    let mut buf = vec![0u8; 16];
    let n = nf.read(&ramfs, &mut buf, 0).unwrap();
    assert_eq!(&buf[..n], b"/target");
}

#[test]
fn link_rejects_invalid_utf8() {
    let mut ramfs = RamFS::new(0);
    let l = file_of(
        ramfs
            .open(Path::new("/l"), OpenOptions::CREATE_LINK().union(OpenOptions::WRITE()), 0)
            .unwrap(),
    );
    let e = l.write(&mut ramfs, &[0xff, 0xfe], 0, 1).unwrap_err();
    assert_eq!(*e.kind(), FSErrorKind::InvalidPath);
}

#[test]
fn truncate_on_open_clears() {
    let mut ramfs = RamFS::new(0);
    let f = file_of(ramfs.open(Path::new("/f"), OpenOptions::CREATE().union(OpenOptions::WRITE()), 0).unwrap());
    f.write(&mut ramfs, b"abcdef", 0, 1).unwrap();
    let g = file_of(
        ramfs
            .open(Path::new("/f"), OpenOptions::WRITE().with_truncate(), 2)
            .unwrap(),
    );
    assert_eq!(ramfs.fstat(g.node).size, 0);
    let a = file_of(ramfs.open(Path::new("/f"), OpenOptions::WRITE(), 3).unwrap());
    a.write(&mut ramfs, b"xyz", 0, 3).unwrap();
    let app = file_of(ramfs.open(Path::new("/f"), OpenOptions::WRITE().with_append(), 4).unwrap());
    assert_eq!(app.cursor.get(), 3);
}

#[test]
fn clear_only_files() {
    let mut ramfs = RamFS::new(0);
    assert_eq!(*ramfs.clear(0, 1).unwrap_err().kind(), FSErrorKind::NotSupported);
}
