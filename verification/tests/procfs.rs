use tiny_os::fd::File;
use tiny_os::fs::{ErrorCause, FSErrRepr, FSError, FSErrorKind, FSResult, OpenOptions, UnlinkOptions};
use tiny_os::path::{Path, PathBuf};
use tiny_os::procfs::{DeviceRegistry, Null, ProcFS, ProcIO};
use tiny_os::ramfs::RamFS;
use tiny_os::tty::{Read, Write};
use tiny_os::vfs::VFS;

/// A device that reads "Test Device" and refuses writes.
struct TestDevice;

impl Read for TestDevice {
    fn read(&mut self, buf: &mut [u8], _offset: usize) -> FSResult<usize> {
        let bytes = "Test Device".as_bytes();
        let len = bytes.len().min(buf.len());
        buf[..len].copy_from_slice(&bytes[..len]);
        Ok(len)
    }
}

impl Write for TestDevice {
    fn write(&mut self, _buf: &[u8], _offset: usize) -> FSResult<usize> {
        Err(FSError::simple(FSErrorKind::NotSupported))
    }
}

const TEST_DEVICE: u64 = 7;

/// Reads through a handle at its cursor, carrying a device read out on the
/// test device, and moves the cursor on.
fn read_continuous(procfs: &ProcFS, file: &mut File, buf: &mut [u8]) -> FSResult<usize> {
    let at = file.cursor.get();
    let n = match procfs.read_node(file.node, buf, at) {
        ProcIO::Done(n) => n,
        ProcIO::Device(dev) => {
            assert_eq!(dev, TEST_DEVICE);
            TestDevice.read(buf, at)?
        }
    };
    file.cursor.advance(n);
    Ok(n)
}

fn write_continuous(procfs: &ProcFS, file: &mut File, buf: &[u8]) -> FSResult<usize> {
    let at = file.cursor.get();
    let n = match procfs.write_node(file.node, buf, at) {
        ProcIO::Done(r) => r?,
        ProcIO::Device(dev) => {
            assert_eq!(dev, TEST_DEVICE);
            TestDevice.write(buf, at)?
        }
    };
    file.cursor.advance(n);
    Ok(n)
}

#[test]
fn procfs_basic() {
    let mut procfs = ProcFS::new();
    let reg = DeviceRegistry::new();
    assert!(procfs.open(Path::new("/foo/bar"), OpenOptions::default(), &reg).is_err());
    assert!(procfs
        .open(Path::new("/foo"), OpenOptions::CREATE_DIR().union(OpenOptions::READ()), &reg)
        .is_ok());
    assert!(procfs
        .open(
            Path::new("/foobar/bar/baz.txt"),
            OpenOptions::CREATE_ALL().union(OpenOptions::READ()),
            &reg
        )
        .is_err());
    assert!(procfs
        .open(
            Path::new("/foobar/bar/baz/"),
            OpenOptions::CREATE_ALL().union(OpenOptions::READ()),
            &reg
        )
        .is_ok());
    assert!(procfs.open(Path::new("/foobar/bar"), OpenOptions::READ(), &reg).is_ok());
    assert!(procfs
        .unlink(
            Path::new("/foobar"),
            UnlinkOptions::RECURSIVE().union(UnlinkOptions::FORCE())
        )
        .is_ok());
    assert!(procfs.open(Path::new("/foobar/bar/baz.txt"), OpenOptions::READ(), &reg).is_err());
    assert!(procfs.unlink(Path::new("/"), UnlinkOptions::RECURSIVE()).is_err());
}

#[test]
fn test_rw() {
    let mut procfs = ProcFS::new();
    let mut registry = DeviceRegistry::new();

    assert!(procfs.open(Path::new("/Test.dev"), OpenOptions::READ(), &registry).is_err());
    assert!(registry
        .register(TEST_DEVICE, PathBuf::from_str_slice("/Test.dev"))
        .is_ok());

    let mut file = procfs
        .open(
            Path::new("/Test.dev"),
            OpenOptions::READ().union(OpenOptions::WRITE()),
            &registry,
        )
        .unwrap();
    let mut buf = vec![0u8; 50];

    let n = read_continuous(&procfs, &mut file, &mut buf).unwrap();
    assert_eq!(n, "Test Device".as_bytes().len());

    assert_eq!(std::str::from_utf8(&buf[..n]).unwrap(), "Test Device");
    assert!(write_continuous(&procfs, &mut file, "Hello".as_bytes()).is_err());

    assert!(procfs.unlink(Path::new("/Test.dev"), UnlinkOptions::empty()).is_ok());
    assert!(procfs.open(Path::new("/Test.dev"), OpenOptions::READ(), &registry).is_ok());

    let mut no_vfs: Option<VFS> = None;
    assert!(registry.deregister(Path::new("/Test.dev"), &mut no_vfs).is_ok());
    assert!(procfs.unlink(Path::new("/Test.dev"), UnlinkOptions::empty()).is_ok());
    assert!(procfs.open(Path::new("/Test.dev"), OpenOptions::READ(), &registry).is_err());
}

#[test]
fn proc_read_dir() {
    let mut procfs = ProcFS::new();
    let mut reg = DeviceRegistry::new();
    let mut listing = Vec::new();
    assert!(matches!(procfs.node_to_end(0, &mut listing, 0), ProcIO::Done(0)));
    assert_eq!(listing, Vec::<u8>::new());

    let dir = OpenOptions::CREATE_DIR();
    procfs.open(Path::new("/foo"), dir, &reg).unwrap();
    reg.register(0, PathBuf::from_str_slice("/foobar")).unwrap();
    procfs.open(Path::new("/foobar"), OpenOptions::READ(), &reg).unwrap();
    procfs
        .open(Path::new("/this is a veeery long directory name!!"), dir, &reg)
        .unwrap();
    procfs.open(Path::new("/short"), dir, &reg).unwrap();

    let mut display = Vec::new();
    let expected = "foo\tfoobar\tthis is a veeery long directory name!!\tshort\t";
    match procfs.node_to_end(0, &mut display, 0) {
        ProcIO::Done(n) => assert_eq!(n, expected.len()),
        ProcIO::Device(_) => panic!("the root is a directory"),
    }
    assert_eq!(display, expected.as_bytes());
}

#[test]
fn proc_read_dir_node_fits_whole_names() {
    let mut procfs = ProcFS::new();
    let reg = DeviceRegistry::new();
    let dir = OpenOptions::CREATE_DIR();
    procfs.open(Path::new("/alpha"), dir, &reg).unwrap();
    procfs.open(Path::new("/be"), dir, &reg).unwrap();
    let mut buf = vec![b'x'; 8];
    // "alpha\t" fits, "be\t" does not; the offset plays no part.
    assert!(matches!(procfs.read_node(0, &mut buf, 3), ProcIO::Done(6)));
    assert_eq!(&buf, b"alpha\txx");
    assert!(matches!(
        procfs.write_node(0, b"no", 0),
        ProcIO::Done(Err(e)) if *e.kind() == FSErrorKind::NotSupported
    ));
}

#[test]
fn register_twice_swaps_and_reports_older() {
    let mut reg = DeviceRegistry::new();
    assert!(reg.register(1, PathBuf::from_str_slice("/a")).is_ok());
    let err = reg.register(2, PathBuf::from_str_slice("/a")).unwrap_err();
    assert_eq!(*err.kind(), FSErrorKind::AlreadyExists);
    assert_eq!(
        err.get_repr(),
        FSErrRepr::Custom { kind: FSErrorKind::AlreadyExists, err: ErrorCause::DeviceExists(1) }
    );
    assert_eq!(reg.get(Path::new("/a")).unwrap().into_inner(), 2);
    assert_eq!(*reg.get(Path::new("/b")).unwrap_err().kind(), FSErrorKind::NotFound);
}

#[test]
fn deregister_unknown_path_is_invalid() {
    let mut reg = DeviceRegistry::new();
    let mut no_vfs: Option<VFS> = None;
    let err = reg.deregister(Path::new("/nothing"), &mut no_vfs).unwrap_err();
    assert_eq!(*err.kind(), FSErrorKind::InvalidPath);
}

#[test]
fn deregister_with_vfs() {
    let mut reg = DeviceRegistry::new();
    let mut vfs = VFS::new();
    vfs.mount(PathBuf::from_str_slice("/ram"), RamFS::new(0)).unwrap();
    vfs.open(
        Path::new("/ram/dir/"),
        OpenOptions::CREATE_ALL().union(OpenOptions::CREATE_DIR()),
        0,
    )
    .unwrap();
    let mut some_vfs = Some(vfs);

    // Not in the file system: the device goes.
    reg.register(3, PathBuf::from_str_slice("/dev3")).unwrap();
    assert_eq!(reg.deregister(Path::new("/dev3"), &mut some_vfs).unwrap().into_inner(), 3);
    assert!(reg.get(Path::new("/dev3")).is_err());

    // Unlinking a directory without RECURSIVE fails: the device is filed
    // again and the call reports the unlinking's failure.
    reg.register(4, PathBuf::from_str_slice("/ram/dir")).unwrap();
    let err = reg.deregister(Path::new("/ram/dir"), &mut some_vfs).unwrap_err();
    assert_eq!(*err.kind(), FSErrorKind::IsADir);
    assert_eq!(reg.get(Path::new("/ram/dir")).unwrap().into_inner(), 4);
    assert!(some_vfs.is_some());
}

#[test]
fn flush_files_devices_below_the_path() {
    let mut procfs = ProcFS::new();
    let mut reg = DeviceRegistry::new();
    reg.register(1, PathBuf::from_str_slice("/bus/kbd")).unwrap();
    reg.register(2, PathBuf::from_str_slice("/bus/serial")).unwrap();
    reg.register(3, PathBuf::from_str_slice("/other")).unwrap();

    // Flushing "/bus" makes the directory and files the devices below it
    // under the rest of their paths, "/kbd" and "/serial".
    assert!(procfs.flush(Path::new("/bus"), &reg).is_ok());
    let dir = procfs.open(Path::new("/bus/"), OpenOptions::READ(), &reg).unwrap();
    let mut listing = Vec::new();
    match procfs.node_to_end(dir.node, &mut listing, 0) {
        ProcIO::Done(n) => assert_eq!(n, "/kbd\t/serial\t".len()),
        ProcIO::Device(_) => panic!("a directory"),
    }
    let text = String::from_utf8(listing).unwrap();
    assert!(text.contains("/kbd\t"));
    assert!(text.contains("/serial\t"));
    assert!(!text.contains("other"));

    // Flushing "/bus/" reaches the entry "" of "/bus", made a directory;
    // the rest of each device path there does not begin with "/", so
    // nothing is filed.
    assert!(procfs.flush(Path::new("/bus/"), &reg).is_ok());
    let inner = procfs.open(Path::new("/bus/"), OpenOptions::READ(), &reg).unwrap();
    let mut listing = Vec::new();
    match procfs.node_to_end(inner.node, &mut listing, 0) {
        ProcIO::Done(_) => {}
        ProcIO::Device(_) => panic!("a directory"),
    }
    let text = String::from_utf8(listing).unwrap();
    assert!(text.starts_with("\t") || text.contains("\t\t"));

    // A device file flushed as a directory fails.
    let mut procfs = ProcFS::new();
    reg.register(5, PathBuf::from_str_slice("/dev")).unwrap();
    procfs.open(Path::new("/dev"), OpenOptions::READ(), &reg).unwrap();
    assert_eq!(
        *procfs.flush(Path::new("/dev"), &reg).unwrap_err().kind(),
        FSErrorKind::NotADir
    );
}

#[test]
fn procfs_itself_reads_its_name() {
    let mut procfs = ProcFS::new();
    let mut buf = vec![0u8; 10];
    assert_eq!(procfs.read(&mut buf, 3).unwrap(), 6);
    assert_eq!(&buf[..6], b"ProcFS");
    let mut small = vec![0u8; 4];
    assert_eq!(procfs.read(&mut small, 0).unwrap(), 4);
    assert_eq!(&small, b"Proc");
    assert_eq!(*procfs.write(b"x", 0).unwrap_err().kind(), FSErrorKind::NotSupported);
}

#[test]
fn null_refuses_everything() {
    let mut null = Null;
    let mut buf = vec![1u8; 3];
    assert_eq!(*null.read(&mut buf, 0).unwrap_err().kind(), FSErrorKind::NotSupported);
    assert_eq!(buf, vec![1u8; 3]);
    assert_eq!(*null.write(b"abc", 0).unwrap_err().kind(), FSErrorKind::NotSupported);
}

#[test]
fn statuses_are_stamped_now() {
    let fs = ProcFS::new();
    let s = fs.stat(42);
    assert_eq!((s.t_create, s.t_mod, s.size), (42, 42, 0));
    let n = Null.fstat(7);
    assert_eq!((n.t_create, n.t_mod, n.size), (7, 7, 0));
}
