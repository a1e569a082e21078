use tiny_os::fs::{FSError, FSErrorKind, FSResult, OpenOptions, UnlinkOptions};
use tiny_os::fs_util;
use tiny_os::path::{Path, PathBuf};
use tiny_os::procfs::{DeviceRegistry, ProcFS, ProcIO};
use tiny_os::ramfs::RamFS;
use tiny_os::tty::{Read, Write};
use tiny_os::vfs::{VfsNode, VFS};

/// A device that reads "Test Device" and refuses writes.
struct TestDevice;

impl Read for TestDevice {
    fn read(&mut self, buf: &mut [u8], _offset: usize) -> FSResult<usize> {
        let bytes = "Test Device".as_bytes();
        let len = bytes.len().min(buf.len());
        buf[..len].copy_from_slice(&bytes[..len]);
        Ok(len)
    }
}

impl Write for TestDevice {
    fn write(&mut self, _buf: &[u8], _offset: usize) -> FSResult<usize> {
        Err(FSError::simple(FSErrorKind::NotSupported))
    }
}

const TEST_DEVICE: u64 = 7;

#[test]
fn vfs_basic() {
    let mut vfs = VFS::new();
    assert!(vfs.open(Path::new("/foo/bar"), OpenOptions::default(), 0).is_err());
    assert!(vfs.unmount(Path::new("/foo/bar")).is_err());

    let ramfs = RamFS::new(0);
    assert!(vfs.mount(PathBuf::from_str_slice("/foo"), ramfs).is_ok());
    assert!(vfs
        .open(Path::new("/foo/bar"), OpenOptions::CREATE().union(OpenOptions::READ()), 0)
        .is_ok());
    assert!(vfs
        .open(Path::new("/foo_/bar"), OpenOptions::CREATE().union(OpenOptions::READ()), 0)
        .is_err());
    assert!(vfs.open(Path::new("/foo/bar"), OpenOptions::default(), 0).is_ok());
    assert!(vfs.unmount(Path::new("/foo")).is_ok());
    assert!(vfs.open(Path::new("/foo/bar"), OpenOptions::default(), 0).is_err());
}

#[test]
fn vfs_integration() {
    let mut vfs = VFS::new();
    let mut registry = DeviceRegistry::new();
    assert!(vfs.mount_proc(PathBuf::from_str_slice("/proc"), ProcFS::new()).is_ok());
    assert!(vfs.mount(PathBuf::from_str_slice("/ram"), RamFS::new(0)).is_ok());

    let mut ramfile = vfs
        .open(
            Path::new("/ram/foo/bar.txt"),
            OpenOptions::CREATE_ALL().union(OpenOptions::WRITE()),
            0,
        )
        .unwrap();
    // the device path is rooted in the process file system, not in the table
    assert!(registry
        .register(TEST_DEVICE, PathBuf::from_str_slice("/foo/Test.dev"))
        .is_ok());

    let proc_node = vfs
        .open_node(
            Path::new("/proc/foo/Test.dev"),
            OpenOptions::CREATE_ALL().union(OpenOptions::READ()),
            0,
            &registry,
        )
        .unwrap();
    let (j, mut proc_file) = match proc_node {
        VfsNode::Proc(j, f) => (j, f),
        VfsNode::Ram(_) => panic!("/proc is a process file system"),
    };

    let writer = "Hello world!!".as_bytes();
    let mut reader = vec![0u8; 50];

    assert_eq!(ramfile.write_continuous(&mut vfs, writer, 1).unwrap(), writer.len());
    ramfile.set_cursor(0);
    let n = ramfile.read_continuous(&vfs, &mut reader).unwrap();
    assert_eq!(n, writer.len());
    assert_eq!(std::str::from_utf8(&reader[..n]).unwrap(), "Hello world!!");
    ramfile.set_cursor(0);
    assert_eq!(
        ramfile.write_continuous(&mut vfs, "Huhu".as_bytes(), 2).unwrap(),
        "Huhu".as_bytes().len()
    );
    let n = ramfile.read(&vfs, &mut reader, 0).unwrap();
    assert_eq!(
        n,
        "Huhu world!!".as_bytes().len().max("Hello world!!".as_bytes().len())
    );
    assert_eq!(std::str::from_utf8(&reader[..n]).unwrap(), "Huhuo world!!");

    let at = proc_file.cursor.get();
    let n = match vfs.proc_mounted(j).read_node(proc_file.node, &mut reader, at) {
        ProcIO::Done(n) => n,
        ProcIO::Device(dev) => {
            assert_eq!(dev, TEST_DEVICE);
            TestDevice.read(&mut reader, at).unwrap()
        }
    };
    proc_file.cursor.advance(n);
    assert_eq!(n, "Test Device".as_bytes().len());
    assert_eq!(std::str::from_utf8(&reader[..n]).unwrap(), "Test Device");
}

#[test]
fn proc_mount_replaces_ram_mount() {
    let mut vfs = VFS::new();
    vfs.mount(PathBuf::from_str_slice("/proc"), RamFS::new(0)).unwrap();
    let e = vfs.mount_proc(PathBuf::from_str_slice("/proc"), ProcFS::new()).unwrap_err();
    assert_eq!(*e.kind(), FSErrorKind::AlreadyExists);
    assert_eq!(vfs.len(), 0);
    assert_eq!(vfs.proc_len(), 1);
    let e = vfs.mount(PathBuf::from_str_slice("/proc"), RamFS::new(0)).unwrap_err();
    assert_eq!(*e.kind(), FSErrorKind::AlreadyExists);
    assert_eq!(vfs.len(), 1);
    assert_eq!(vfs.proc_len(), 0);
    assert!(vfs.unmount(Path::new("/proc")).is_ok());
    assert!(vfs.mount_proc(PathBuf::from_str_slice("/proc"), ProcFS::new()).is_ok());
    let e = vfs.mount_proc(PathBuf::from_str_slice("/proc"), ProcFS::new()).unwrap_err();
    assert_eq!(*e.kind(), FSErrorKind::AlreadyExists);
    assert_eq!(vfs.proc_len(), 1);
    assert!(vfs.unmount_proc(Path::new("/proc")).is_ok());
    assert!(vfs.unmount_proc(Path::new("/proc")).is_err());
    assert_eq!(vfs.proc_len(), 0);
}

#[test]
fn proc_paths_go_to_the_deepest_mount() {
    let mut vfs = VFS::new();
    let registry = DeviceRegistry::new();
    vfs.mount_proc(PathBuf::from_str_slice("/sys"), ProcFS::new()).unwrap();
    vfs.mount(PathBuf::from_str_slice("/sys/ram"), RamFS::new(0)).unwrap();
    let node = vfs
        .open_node(Path::new("/sys/ram/a.txt"), OpenOptions::CREATE().union(OpenOptions::WRITE()), 0, &registry)
        .unwrap();
    assert!(matches!(node, VfsNode::Ram(_)));
    let node = vfs
        .open_node(Path::new("/sys/d"), OpenOptions::CREATE_DIR(), 0, &registry)
        .unwrap();
    assert!(matches!(node, VfsNode::Proc(0, _)));
    // a directory goes only with RECURSIVE
    assert!(vfs.unlink_node(Path::new("/sys/d"), UnlinkOptions::empty()).is_err());
    assert!(matches!(
        vfs.unlink_node(Path::new("/sys/d"), UnlinkOptions::RECURSIVE()),
        Ok(VfsNode::Proc(0, _))
    ));
    assert!(matches!(
        vfs.unlink_node(Path::new("/sys/ram/a.txt"), UnlinkOptions::empty()),
        Ok(VfsNode::Ram(_))
    ));
    // an unregistered device is not found
    let e = vfs.open_node(Path::new("/sys/none.dev"), OpenOptions::READ(), 0, &registry);
    assert!(matches!(e, Err(ref e) if *e.kind() == FSErrorKind::NotFound));
    assert!(fs_util::unmount(&mut vfs, Path::new("/sys")).is_ok());
    assert!(fs_util::unmount(&mut vfs, Path::new("/sys")).is_err());
}

#[test]
fn symlink_() {
    let mut vfs = VFS::new();
    fs_util::mount(&mut vfs, PathBuf::from_str_slice("/ram0"), RamFS::new(0)).unwrap();
    fs_util::mount(&mut vfs, PathBuf::from_str_slice("/ram1"), RamFS::new(0)).unwrap();

    let mut file = fs_util::open(
        &mut vfs,
        Path::new("/ram0/bar/foo.txt"),
        OpenOptions::CREATE_ALL().union(OpenOptions::WRITE()),
        0,
    )
    .unwrap();

    fs_util::symlink(&mut vfs, Path::new("/ram1/foo_link"), Path::new("/ram0/bar/foo.txt"), 0)
        .unwrap();

    let mut link = fs_util::open(&mut vfs, Path::new("/ram1/foo_link"), OpenOptions::WRITE(), 0)
        .unwrap();
    assert_eq!(
        file.read_all_as_str(&vfs).unwrap(),
        link.read_all_as_str(&vfs).unwrap()
    );
    link.set_cursor(0);

    let str_ = "hello world in foo";
    file.write_all(&mut vfs, str_.as_bytes(), 0, 1).unwrap();
    file.set_cursor(0);
    assert_eq!(file.read_all_as_str(&vfs).unwrap(), str_);
    file.set_cursor(0);
    assert_eq!(link.read_all_as_str(&vfs).unwrap(), str_);
    link.set_cursor(0);

    let str_ = "well this is a new str!";
    link.write_all(&mut vfs, str_.as_bytes(), 0, 2).unwrap();
    link.set_cursor(0);
    assert_eq!(file.read_all_as_str(&vfs).unwrap(), str_);

    let link2 = fs_util::open(
        &mut vfs,
        Path::new("/ram1/foo_link"),
        OpenOptions::READ().with_no_follow_symlink(),
        0,
    )
    .unwrap();
    assert_eq!(link2.read_all_as_str(&vfs).unwrap(), "/ram0/bar/foo.txt");

    fs_util::unmount(&mut vfs, Path::new("/ram0")).unwrap();
    fs_util::unmount(&mut vfs, Path::new("/ram1")).unwrap();
}

#[test]
fn mount_taken_fails_and_replaces() {
    let mut vfs = VFS::new();
    vfs.mount(PathBuf::from_str_slice("/a"), RamFS::new(0)).unwrap();
    let e = vfs.mount(PathBuf::from_str_slice("/a"), RamFS::new(0)).unwrap_err();
    assert_eq!(*e.kind(), FSErrorKind::AlreadyExists);
    assert_eq!(vfs.len(), 1);
}

#[test]
fn mount_then_unmount_restores() {
    let mut vfs = VFS::new();
    vfs.mount(PathBuf::from_str_slice("/b"), RamFS::new(0)).unwrap();
    vfs.mount(PathBuf::from_str_slice("/a"), RamFS::new(7)).unwrap();
    let fs = vfs.unmount(Path::new("/a")).unwrap();
    assert_eq!(fs.fstat(0).t_create, 7);
    assert_eq!(vfs.len(), 1);
    assert_eq!(*vfs.unmount(Path::new("/a")).err().unwrap().kind(), FSErrorKind::NotFound);
}

#[test]
fn deepest_mount_wins() {
    let mut vfs = VFS::new();
    vfs.mount(PathBuf::from_str_slice("/a"), RamFS::new(0)).unwrap();
    vfs.mount(PathBuf::from_str_slice("/a/b"), RamFS::new(0)).unwrap();
    let (i, rest) = vfs.deepest_matching_mount(Path::new("/a/b/c")).unwrap();
    assert_eq!(i, 1);
    assert_eq!(rest.as_str(), "/c");
    let (i, rest) = vfs.deepest_matching_mount(Path::new("/a/x")).unwrap();
    assert_eq!(i, 0);
    assert_eq!(rest.as_str(), "/x");
    assert!(vfs.deepest_matching_mount(Path::new("/z/y")).is_err());
}

#[test]
fn root_lists_mounts_in_order() {
    let mut vfs = VFS::new();
    vfs.mount(PathBuf::from_str_slice("/ram"), RamFS::new(0)).unwrap();
    vfs.mount(PathBuf::from_str_slice("/proc"), RamFS::new(0)).unwrap();
    let root = vfs.open(Path::new("/"), OpenOptions::READ(), 0).unwrap();
    assert!(root.mount.is_none());
    assert_eq!(root.file.get_path().unwrap().as_str(), "/");
    let mut buf = vec![0u8; 64];
    let n = root.read(&vfs, &mut buf, 0).unwrap();
    assert_eq!(&buf[..n], b"/proc\t/ram\t");
    let e = root.read(&vfs, &mut buf, 11).unwrap_err();
    assert_eq!(*e.kind(), FSErrorKind::UnexpectedEOF);
    assert_eq!(root.read_all_as_str(&vfs).unwrap(), "VFS with mounts:\n/proc\t/ram\t");
    let w = vfs.open(Path::new("/"), OpenOptions::WRITE(), 0).unwrap();
    assert_eq!(*w.write(&mut vfs, b"x", 0, 0).unwrap_err().kind(), FSErrorKind::NotSupported);
}

#[test]
fn lsdir_and_mkdir_and_rm() {
    let mut vfs = VFS::new();
    vfs.mount(PathBuf::from_str_slice("/ram"), RamFS::new(0)).unwrap();
    fs_util::mkdir(&mut vfs, Path::new("/ram/d"), 0).unwrap();
    fs_util::mkdir(&mut vfs, Path::new("/ram/e"), 0).unwrap();
    assert_eq!(fs_util::lsdir(&mut vfs, Path::new("/ram/"), 0).unwrap_or_default(), "d\te\t");
    fs_util::rm(&mut vfs, Path::new("/ram/d"), UnlinkOptions::RECURSIVE()).unwrap();
    assert_eq!(fs_util::lsdir(&mut vfs, Path::new("/ram/"), 0).unwrap_or_default(), "e\t");
    assert!(vfs.flush(Path::new("/ram/e")).is_ok());
    assert!(vfs.flush(Path::new("/nowhere")).is_err());
}

#[test]
fn unlink_through_table() {
    let mut vfs = VFS::new();
    vfs.mount(PathBuf::from_str_slice("/ram"), RamFS::new(0)).unwrap();
    fs_util::open(&mut vfs, Path::new("/ram/f"), OpenOptions::CREATE(), 0).unwrap();
    let h = vfs.unlink(Path::new("/ram/f"), UnlinkOptions::empty()).unwrap();
    assert_eq!(h.mount, Some(0));
    let e = vfs.open(Path::new("/ram/f"), OpenOptions::READ(), 0).err().unwrap();
    assert_eq!(*e.kind(), FSErrorKind::NotFound);
    assert!(fs_util::close(Path::new("/ram/f"), h).is_ok());
}

#[test]
fn mkdir_then_lsdir_lists_the_new_empty_directory() {
    let mut vfs = VFS::new();
    fs_util::mount(&mut vfs, PathBuf::from_str_slice("/m"), RamFS::new(0)).unwrap();
    fs_util::mkdir(&mut vfs, Path::new("/m/a"), 1).unwrap();
    fs_util::mkdir(&mut vfs, Path::new("/m/d"), 1).unwrap();
    assert_eq!(fs_util::lsdir(&mut vfs, Path::new("/m/d"), 2).unwrap(), "");
    assert!(fs_util::lsdir(&mut vfs, Path::new("/m"), 2).unwrap().ends_with("d\t"));
    // a second mkdir keeps the directory as it is
    fs_util::mkdir(&mut vfs, Path::new("/m/d/e"), 3).unwrap();
    fs_util::mkdir(&mut vfs, Path::new("/m/d"), 4).unwrap();
    assert_eq!(fs_util::lsdir(&mut vfs, Path::new("/m/d"), 5).unwrap(), "e\t");
}

#[test]
fn rm_removes_a_file_and_keeps_a_directory() {
    let mut vfs = VFS::new();
    fs_util::mount(&mut vfs, PathBuf::from_str_slice("/m"), RamFS::new(0)).unwrap();
    fs_util::open(&mut vfs, Path::new("/m/f.txt"), OpenOptions::CREATE().union(OpenOptions::WRITE()), 0)
        .unwrap();
    fs_util::mkdir(&mut vfs, Path::new("/m/d"), 0).unwrap();
    fs_util::rm(&mut vfs, Path::new("/m/f.txt"), UnlinkOptions::empty()).unwrap();
    let e = vfs.open(Path::new("/m/f.txt"), OpenOptions::READ(), 0).err().unwrap();
    assert_eq!(*e.kind(), FSErrorKind::NotFound);
    let e = fs_util::rm(&mut vfs, Path::new("/m/d"), UnlinkOptions::empty()).unwrap_err();
    assert_eq!(*e.kind(), FSErrorKind::IsADir);
    assert!(vfs.open(Path::new("/m/d"), OpenOptions::READ(), 0).is_ok());
}

#[test]
fn a_second_unmount_fails() {
    let mut vfs = VFS::new();
    fs_util::mount(&mut vfs, PathBuf::from_str_slice("/ram0"), RamFS::new(0)).unwrap();
    fs_util::open(&mut vfs, Path::new("/ram0/x"), OpenOptions::CREATE().union(OpenOptions::WRITE()), 0)
        .unwrap();
    assert!(fs_util::unmount(&mut vfs, Path::new("/ram0")).is_ok());
    let e = fs_util::unmount(&mut vfs, Path::new("/ram0")).unwrap_err();
    assert_eq!(*e.kind(), FSErrorKind::NotFound);
    let e = vfs.open(Path::new("/ram0/x"), OpenOptions::READ(), 0).err().unwrap();
    assert_eq!(*e.kind(), FSErrorKind::NotFound);
}

#[test]
fn flush_through_the_table_reaches_the_process_file_system() {
    let mut vfs = VFS::new();
    let mut reg = DeviceRegistry::new();
    vfs.mount_proc(PathBuf::from_str_slice("/proc"), ProcFS::new()).unwrap();
    vfs.mount(PathBuf::from_str_slice("/ram"), RamFS::new(0)).unwrap();
    reg.register(1, PathBuf::from_str_slice("/bus/kbd")).unwrap();
    // "/proc/bus" is "/bus" in the process file system: the device below it
    // is filed there as "/kbd".
    assert!(vfs.flush_node(Path::new("/proc/bus"), &reg).is_ok());
    let node = vfs.open_node(Path::new("/proc/bus/"), OpenOptions::READ(), 0, &reg).unwrap();
    let dir = match node {
        VfsNode::Proc(0, f) => f,
        _ => panic!("/proc is the process file system"),
    };
    let mut listing = Vec::new();
    match vfs.proc_mounted(0).node_to_end(dir.node, &mut listing, 0) {
        ProcIO::Done(_) => {}
        ProcIO::Device(_) => panic!("a directory"),
    }
    assert_eq!(String::from_utf8(listing).unwrap(), "/kbd\t");
    // an in-memory mount only checks that the path lies under it
    assert!(vfs.flush_node(Path::new("/ram/x"), &reg).is_ok());
    assert!(vfs.flush_node(Path::new("/nowhere"), &reg).is_err());
}
