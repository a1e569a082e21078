//! File-system conveniences over a mount table: making directories,
//! listing them, mounting, opening, removing and linking by path.
use vstd::prelude::*;
use vstd::utf8::{decode_utf8, encode_utf8, valid_utf8};

use crate::fs::{FSError, FSErrorKind, FSResult, OpenOptions, UnlinkOptions};
use crate::path::{Path, PathBuf};
use crate::ramfs::{FileView, RamFS, write_agrees};
use crate::procfs::{DeviceRegistry, proc_open_spec};
use crate::vfs::{
    HandleView, VFS, VfsFile, VfsNode, mount_index, proc_target, unmount_proc_spec, files_bounded, handle_text, law_plain_open_keeps_table, mount_spec,
    open_ends, open_fuel, unlink_node_spec, unmount_spec, vfs_open_agrees, vfs_open_spec,
    vfs_write_spec,
};

verus! {

/// Creates the directory `path` (an existing entry there is kept).
pub fn mkdir(vfs: &mut VFS, path: Path<'_>, now: u64) -> (r: FSResult<()>)
    requires
        old(vfs).wf(),
        open_ends(old(vfs).view(), path@, 32, now),
    ensures
        final(vfs).wf(),
        final(vfs).view() == vfs_open_spec(old(vfs).view(), path@, 32, now).0,
        match r {
            Ok(()) => vfs_open_spec(old(vfs).view(), path@, 32, now).1 is Ok,
            Err(e) => vfs_open_spec(old(vfs).view(), path@, 32, now).1 == Err::<HandleView, FSErrorKind>(e.kind_of()),
        },
{
    let o = OpenOptions::CREATE_DIR();
    vfs.open(path, o, now)?;
    Ok(())
}

/// The listing of the directory `path`, as text.
pub fn lsdir(vfs: &mut VFS, path: Path<'_>, now: u64) -> (r: FSResult<String>)
    requires
        old(vfs).wf(),
        files_bounded(old(vfs).view()),
        open_ends(old(vfs).view(), path@, 1, now),
    ensures
        final(vfs).view() == old(vfs).view(),
        match vfs_open_spec(old(vfs).view(), path@, 1, now).1 {
            Err(k) => r matches Err(e) && e.kind_of() == k,
            Ok(h) => match r {
                Ok(s) => valid_utf8(handle_text(old(vfs).view(), h.mount_usize(), h.node as usize))
                    && s@ == decode_utf8(handle_text(old(vfs).view(), h.mount_usize(), h.node as usize)),
                Err(e) => e.kind_of() == FSErrorKind::Other && !valid_utf8(
                    handle_text(old(vfs).view(), h.mount_usize(), h.node as usize),
                ),
            },
        },
{
    proof {
        assert(1u32 & 240u32 == 0u32 && 1u32 & 10u32 != 10u32) by (bit_vector);
        law_plain_open_keeps_table(old(vfs).view(), path@, 1, now, open_fuel(old(vfs).view(), path@, 1, now));
    }
    let dir = vfs.open(path, OpenOptions::READ(), now)?;
    let mut buf = String::new();
    dir.read_to_string(vfs, &mut buf, 0)?;
    proof {
        assert(Seq::<char>::empty() + decode_utf8(handle_text(vfs.view(), dir.mount, dir.file.node))
            =~= decode_utf8(handle_text(vfs.view(), dir.mount, dir.file.node)));
    }
    Ok(buf)
}

/// Mounts `fs` at `path`.
pub fn mount(vfs: &mut VFS, path: PathBuf, fs: RamFS) -> (r: FSResult<()>)
    requires
        old(vfs).wf(),
        fs.wf(),
    ensures
        final(vfs).wf(),
        final(vfs).view() == mount_spec(old(vfs).view(), path@, fs.view()).0,
        final(vfs).proc_view() == unmount_proc_spec(old(vfs).proc_view(), path@).0,
        match r {
            Ok(()) => mount_spec(old(vfs).view(), path@, fs.view()).1 is Ok
                && mount_index(old(vfs).proc_view(), path@) < 0,
            Err(e) => (mount_spec(old(vfs).view(), path@, fs.view()).1 is Err
                || mount_index(old(vfs).proc_view(), path@) >= 0) && e.kind_of() == FSErrorKind::AlreadyExists,
        },
{
    vfs.mount(path, fs)
}

/// Unmounts the file system at `path`, of whichever kind it is: an
/// in-memory one there goes first; otherwise the process file system there.
pub fn unmount(vfs: &mut VFS, path: Path<'_>) -> (r: FSResult<()>)
    requires
        old(vfs).wf(),
    ensures
        final(vfs).wf(),
        mount_index(old(vfs).view(), path@) >= 0 ==> r is Ok
            && final(vfs).view() == unmount_spec(old(vfs).view(), path@).0
            && final(vfs).proc_view() == old(vfs).proc_view(),
        mount_index(old(vfs).view(), path@) < 0 ==> final(vfs).view() == old(vfs).view()
            && final(vfs).proc_view() == unmount_proc_spec(old(vfs).proc_view(), path@).0
            && (r is Ok <==> mount_index(old(vfs).proc_view(), path@) >= 0),
        r matches Err(e) ==> e.kind_of() == FSErrorKind::NotFound,
{
    match vfs.unmount(path) {
        Ok(_) => Ok(()),
        Err(_) => {
            vfs.unmount_proc(path)?;
            Ok(())
        },
    }
}

/// Opens `path`; the handle carries `path` as its path.
pub fn open(vfs: &mut VFS, path: Path<'_>, options: OpenOptions, now: u64) -> (r: FSResult<VfsFile>)
    requires
        old(vfs).wf(),
        open_ends(old(vfs).view(), path@, options@, now),
    ensures
        final(vfs).wf(),
        final(vfs).view() == vfs_open_spec(old(vfs).view(), path@, options@, now).0,
        match r {
            Ok(h) => vfs_open_spec(old(vfs).view(), path@, options@, now).1 matches Ok(hv)
                && hv.mount == h.mount_index() && hv.node == h.file.node && hv.perms == h.file.perms@
                && hv.cursor == h.file.cursor@ && (h.file.path matches Some(p) && p@ == path@),
            Err(e) => vfs_open_spec(old(vfs).view(), path@, options@, now).1 == Err::<HandleView, FSErrorKind>(e.kind_of()),
        },
        r matches Ok(h) ==> crate::vfs::handle_in(final(vfs).view(), h.mount, h.file.node),
{
    match vfs.open(path, options, now) {
        Err(e) => Err(e),
        Ok(h) => Ok(VfsFile { mount: h.mount, file: h.file.with_path(path.to_owned()) }),
    }
}

/// Opens `path` in whichever kind of file system it lies in (see
/// `VFS::open_node`); a handle on an in-memory file system carries `path`
/// as its path.
pub fn open_node(vfs: &mut VFS, path: Path<'_>, options: OpenOptions, now: u64, reg: &DeviceRegistry) -> (r: FSResult<VfsNode>)
    requires
        old(vfs).wf(),
        proc_target(old(vfs).view(), old(vfs).proc_view(), path@) is None ==> open_ends(old(vfs).view(), path@, options@, now),
    ensures
        final(vfs).wf(),
        match proc_target(old(vfs).view(), old(vfs).proc_view(), path@) {
            Some((j, rest)) => {
                let o = proc_open_spec(old(vfs).proc_view()[j].1, rest, options@, reg@);
                &&& final(vfs).view() == old(vfs).view()
                &&& final(vfs).proc_view() == old(vfs).proc_view().update(j, (old(vfs).proc_view()[j].0, o.0))
                &&& match r {
                    Ok(VfsNode::Proc(k, f)) => k == j && o.1 == Ok::<int, FSErrorKind>(f.node as int),
                    Ok(VfsNode::Ram(_)) => false,
                    Err(e) => o.1 == Err::<int, FSErrorKind>(e.kind_of()),
                }
            },
            None => {
                let o = vfs_open_spec(old(vfs).view(), path@, options@, now);
                &&& final(vfs).view() == o.0
                &&& final(vfs).proc_view() == old(vfs).proc_view()
                &&& match r {
                    Ok(VfsNode::Ram(h)) => o.1 matches Ok(hv) && hv.mount == h.mount_index() && hv.node == h.file.node
                        && (h.file.path matches Some(p) && p@ == path@),
                    Ok(VfsNode::Proc(_, _)) => false,
                    Err(e) => o.1 == Err::<HandleView, FSErrorKind>(e.kind_of()),
                }
            },
        },
{
    match vfs.open_node(path, options, now, reg) {
        Err(e) => Err(e),
        Ok(VfsNode::Ram(h)) => Ok(VfsNode::Ram(VfsFile { mount: h.mount, file: h.file.with_path(path.to_owned()) })),
        Ok(VfsNode::Proc(j, f)) => Ok(VfsNode::Proc(j, f)),
    }
}

/// Closing a handle needs nothing done.
pub fn close(path: Path<'_>, file: VfsFile) -> (r: FSResult<()>)
    ensures
        r is Ok,
{
    Ok(())
}

/// Removes `path`, in whichever kind of file system it lies in (see
/// `VFS::unlink_node`).
pub fn rm(vfs: &mut VFS, path: Path<'_>, options: UnlinkOptions) -> (r: FSResult<()>)
    requires
        old(vfs).wf(),
    ensures
        final(vfs).wf(),
        final(vfs).view() == unlink_node_spec(old(vfs).view(), old(vfs).proc_view(), path@, options@).0,
        final(vfs).proc_view() == unlink_node_spec(old(vfs).view(), old(vfs).proc_view(), path@, options@).1,
        match r {
            Ok(()) => unlink_node_spec(old(vfs).view(), old(vfs).proc_view(), path@, options@).2 is Ok,
            Err(e) => unlink_node_spec(old(vfs).view(), old(vfs).proc_view(), path@, options@).2
                == Err::<(), FSErrorKind>(e.kind_of()),
        },
{
    vfs.unlink_node(path, options)?;
    Ok(())
}

/// The options `symlink` opens the link with: create a link, for writing.
pub open spec fn link_options() -> u32 {
    128u32 | 2u32
}

/// Makes `path` a symbolic link to `to`: the link is opened (created when
/// missing) for writing, and the target's text is written to it.
pub fn symlink(vfs: &mut VFS, path: Path<'_>, to: Path<'_>, now: u64) -> (r: FSResult<()>)
    requires
        old(vfs).wf(),
        open_ends(old(vfs).view(), path@, link_options(), now),
    ensures
        final(vfs).wf(),
        match vfs_open_spec(old(vfs).view(), path@, link_options(), now).1 {
            Err(k) => r matches Err(e) && e.kind_of() == k
                && final(vfs).view() == vfs_open_spec(old(vfs).view(), path@, link_options(), now).0,
            Ok(h) => {
                let v1 = vfs_open_spec(old(vfs).view(), path@, link_options(), now).0;
                let w = vfs_write_spec(v1, h.mount_usize(), h.node as usize, h.perms, encode_utf8(to@), 0, now);
                final(vfs).view() == w.0 && match r {
                    Ok(()) => w.1 is Ok,
                    Err(e) => w.1 == Err::<usize, FSErrorKind>(e.kind_of()),
                }
            },
        },
{
    let options = OpenOptions::CREATE_LINK().with_write();
    let link = vfs.open(path, options, now)?;
    let bytes = to.as_str().as_bytes();
    let _ = bytes.len();
    let n = link.write(vfs, bytes, 0, now)?;
    Ok(())
}

} // verus!
