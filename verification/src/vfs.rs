//! The virtual file system: in-memory file systems mounted at paths, kept in
//! the order of their mount points, process file systems mounted beside
//! them, and the resolution that picks, for a path, the mount it lies under.
//! Links are followed among the in-memory file systems; the table's own
//! listing names their mount points.
use vstd::prelude::*;

use crate::chars::{
    lacks, lemma_last_index_of, lemma_last_index_of_join, lemma_less_irreflexive, lemma_less_total,
    lemma_less_transitive, rsplit_once, seq_less, str_less,
};
use crate::fd::{FPerms, FStat, File};
use crate::fs::{ErrorCause, FSError, FSErrorKind, FSResult, NodeType, OpenOptions, UnlinkOptions};
use crate::path::{Path, PathBuf, path_parent, sep};
use crate::procfs::{
    DeviceRegistry, ProcFS, ProcView, enumerates, proc_flush_spec, proc_open_spec, proc_unlink_spec, proc_wf,
};
use crate::fd::has_perm;
use crate::ramfs::{
    FileView, NodeView, OpenView, Opened, RamFS, append_bytes, cursor_after, dir_display, fs_wf,
    handle_read_spec, handle_write_spec, lemma_listing_split, lemma_skip_more, listing_from,
    listing_upto, open_spec, put_entry, read_agrees, read_to_end_fails, read_to_end_ok, skip_entry,
    unlink_spec, write_agrees, write_spec, entry_bytes, ends_with_sep, ensure, entries_of, fresh_dir,
    fresh_link, is_dir, law_link_round_trip, law_mkdir_then_list, law_unlink_then_open, lookup, names_of, open_in_dir, perm_w, perm_x, traverse_spec,
    unlink_in_dir,
};
use crate::path::path_file;
use vstd::utf8::{decode_utf8, encode_utf8, valid_utf8};

verus! {

/// A file system mounted at a path.
pub struct Mount {
    point: PathBuf,
    fs: RamFS,
}

/// A process file system mounted at a path.
pub struct ProcMount {
    point: PathBuf,
    fs: ProcFS,
}

/// The mount table: the in-memory file systems, kept in the order of their
/// mount points, and the process file systems.
pub struct VFS {
    mounts: Vec<Mount>,
    procs: Vec<ProcMount>,
}

/// No point holds both an in-memory and a process file system.
pub open spec fn tables_disjoint(v: Seq<(Seq<char>, Seq<FileView>)>, pv: Seq<(Seq<char>, Seq<ProcView>)>) -> bool {
    forall|i: int, j: int| 0 <= i < v.len() && 0 <= j < pv.len() ==> #[trigger] v[i].0 != #[trigger] pv[j].0
}

/// No point holds two process file systems.
pub open spec fn proc_points_unique(pv: Seq<(Seq<char>, Seq<ProcView>)>) -> bool {
    forall|i: int, j: int| 0 <= i < pv.len() && 0 <= j < pv.len() && i != j ==> #[trigger] pv[i].0 != #[trigger] pv[j].0
}

/// Every mounted process file system is well formed.
pub open spec fn procs_wf(pv: Seq<(Seq<char>, Seq<ProcView>)>) -> bool {
    forall|j: int| 0 <= j < pv.len() ==> proc_wf(#[trigger] pv[j].1)
}

/// The table is well formed: mount points strictly ascending (so none
/// repeats), and every mounted file system well formed.
pub open spec fn vfs_wf(v: Seq<(Seq<char>, Seq<FileView>)>) -> bool {
    &&& forall|i: int, j: int| 0 <= i < j < v.len() ==> seq_less(#[trigger] v[i].0, #[trigger] v[j].0)
    &&& forall|i: int| 0 <= i < v.len() ==> fs_wf(#[trigger] v[i].1)
}

/// Position of the mount at exactly `point`, or -1.
pub open spec fn mount_index<F>(v: Seq<(Seq<char>, F)>, point: Seq<char>) -> int
    decreases v.len(),
{
    if v.len() == 0 {
        -1
    } else if v[0].0 == point {
        0
    } else {
        let r = mount_index(v.drop_first(), point);
        if r < 0 {
            -1
        } else {
            r + 1
        }
    }
}

/// Where a new mount point goes to keep the table in order: before the
/// first point that is not less than it.
pub open spec fn insert_pos(v: Seq<(Seq<char>, Seq<FileView>)>, point: Seq<char>) -> int
    decreases v.len(),
{
    if v.len() == 0 {
        0
    } else if !seq_less(v[0].0, point) {
        0
    } else {
        insert_pos(v.drop_first(), point) + 1
    }
}

/// Mounting `f` at `point`: a taken point gets the new file system and the
/// call fails with `AlreadyExists`; otherwise the mount joins the table.
pub open spec fn mount_spec(v: Seq<(Seq<char>, Seq<FileView>)>, point: Seq<char>, f: Seq<FileView>) -> (
    Seq<(Seq<char>, Seq<FileView>)>,
    Result<(), FSErrorKind>,
) {
    let i = mount_index(v, point);
    if i >= 0 {
        (v.update(i, (point, f)), Err(FSErrorKind::AlreadyExists))
    } else {
        (v.insert(insert_pos(v, point), (point, f)), Ok(()))
    }
}

/// Unmounting `point`: the mount leaves the table and its file system is
/// handed back; an unknown point fails with `NotFound`.
pub open spec fn unmount_spec(v: Seq<(Seq<char>, Seq<FileView>)>, point: Seq<char>) -> (
    Seq<(Seq<char>, Seq<FileView>)>,
    Result<Seq<FileView>, FSErrorKind>,
) {
    let i = mount_index(v, point);
    if i >= 0 {
        (v.remove(i), Ok(v[i].1))
    } else {
        (v, Err(FSErrorKind::NotFound))
    }
}

/// The mount `path` lies under, looking at `a` and then its parents in
/// turn: the first that is a mount point, with what remains of `path` below it.
pub open spec fn deepest_from(v: Seq<(Seq<char>, Seq<FileView>)>, path: Seq<char>, a: Seq<char>) -> Option<
    (int, Seq<char>),
>
    decreases a.len(),
{
    let i = mount_index(v, a);
    if i >= 0 {
        Some((i, path.skip(a.len() as int)))
    } else {
        match path_parent(a) {
            Some(q) => if q.len() < a.len() {
                deepest_from(v, path, q)
            } else {
                None
            },
            None => None,
        }
    }
}

/// Mounting a process file system at `point`: a process file system
/// already there is swapped for the new one and an in-memory one there
/// leaves the table; either way the call fails with `AlreadyExists`.
pub open spec fn mount_proc_spec(
    v: Seq<(Seq<char>, Seq<FileView>)>,
    pv: Seq<(Seq<char>, Seq<ProcView>)>,
    point: Seq<char>,
    f: Seq<ProcView>,
) -> (Seq<(Seq<char>, Seq<FileView>)>, Seq<(Seq<char>, Seq<ProcView>)>, Result<(), FSErrorKind>) {
    let i = mount_index(v, point);
    let j = mount_index(pv, point);
    (
        if i >= 0 { v.remove(i) } else { v },
        if j >= 0 { pv.update(j, (point, f)) } else { pv.push((point, f)) },
        if i >= 0 || j >= 0 { Err(FSErrorKind::AlreadyExists) } else { Ok(()) },
    )
}

/// Unmounting the process file system at `point`: it leaves the table and
/// is handed back; an unknown point fails with `NotFound`.
pub open spec fn unmount_proc_spec(pv: Seq<(Seq<char>, Seq<ProcView>)>, point: Seq<char>) -> (
    Seq<(Seq<char>, Seq<ProcView>)>,
    Result<Seq<ProcView>, FSErrorKind>,
) {
    let j = mount_index(pv, point);
    if j >= 0 {
        (pv.remove(j), Ok(pv[j].1))
    } else {
        (pv, Err(FSErrorKind::NotFound))
    }
}

/// Looking at `a` and then its parents in turn for the first mount point:
/// the process file system there, with what remains of `path` below it, or
/// none when the first point found holds an in-memory file system (or none
/// is found).
pub open spec fn proc_target_from(
    v: Seq<(Seq<char>, Seq<FileView>)>,
    pv: Seq<(Seq<char>, Seq<ProcView>)>,
    path: Seq<char>,
    a: Seq<char>,
) -> Option<(int, Seq<char>)>
    decreases a.len(),
{
    if mount_index(v, a) >= 0 {
        None
    } else if mount_index(pv, a) >= 0 {
        Some((mount_index(pv, a), path.skip(a.len() as int)))
    } else {
        match path_parent(a) {
            Some(q) => if q.len() < a.len() {
                proc_target_from(v, pv, path, q)
            } else {
                None
            },
            None => None,
        }
    }
}

/// The process file system that `path` is opened in, when the deepest
/// mount it lies under holds one (`/` itself is the table).
pub open spec fn proc_target(
    v: Seq<(Seq<char>, Seq<FileView>)>,
    pv: Seq<(Seq<char>, Seq<ProcView>)>,
    path: Seq<char>,
) -> Option<(int, Seq<char>)> {
    if path == seq![sep()] {
        None
    } else {
        proc_target_from(v, pv, path, path)
    }
}

/// A flush's result agrees with the outcome the spec gives.
pub open spec fn flush_agrees(r: FSResult<()>, s: Result<(), FSErrorKind>) -> bool {
    match r {
        Ok(()) => s is Ok,
        Err(e) => s == Err::<(), FSErrorKind>(e.kind_of()),
    }
}

/// The process file systems `after` are `before` with the one at `j`
/// flushed at `rest` as `proc_flush_spec` says, the registry `reg` taken
/// in some order that enumerates it, and `r` the flush's outcome.
pub open spec fn proc_flushed(
    before: Seq<(Seq<char>, Seq<ProcView>)>,
    after: Seq<(Seq<char>, Seq<ProcView>)>,
    j: int,
    rest: Seq<char>,
    reg: Map<Seq<char>, u64>,
    r: FSResult<()>,
) -> bool {
    &&& after.len() == before.len()
    &&& after[j].0 == before[j].0
    &&& forall|k: int| 0 <= k < before.len() && k != j ==> #[trigger] after[k] == before[k]
    &&& exists|items: Seq<(Seq<char>, u64)>|
        enumerates(items, reg) && after[j].1 == #[trigger] proc_flush_spec(before[j].1, rest, items).0 && flush_agrees(
            r,
            proc_flush_spec(before[j].1, rest, items).1,
        )
}

/// Unlinking `path` through the whole table: in the process file system
/// the deepest mount holds, when it holds one, and otherwise as
/// `vfs_unlink_spec` says; with the outcome's kind.
pub open spec fn unlink_node_spec(
    v: Seq<(Seq<char>, Seq<FileView>)>,
    pv: Seq<(Seq<char>, Seq<ProcView>)>,
    path: Seq<char>,
    options: u32,
) -> (Seq<(Seq<char>, Seq<FileView>)>, Seq<(Seq<char>, Seq<ProcView>)>, Result<(), FSErrorKind>) {
    match proc_target(v, pv, path) {
        Some((j, rest)) => {
            let o = proc_unlink_spec(pv[j].1, rest, options);
            (v, pv.update(j, (pv[j].0, o.0)), match o.1 {
                Ok(_) => Ok(()),
                Err(k) => Err(k),
            })
        },
        None => {
            let o = vfs_unlink_spec(v, path, options);
            (o.0, pv, match o.1 {
                Ok(_) => Ok(()),
                Err(k) => Err(k),
            })
        },
    }
}

/// The deepest mount `path` lies under, and the rest of the path below it.
pub open spec fn deepest_mount(v: Seq<(Seq<char>, Seq<FileView>)>, path: Seq<char>) -> Option<
    (int, Seq<char>),
> {
    deepest_from(v, path, path)
}

proof fn lemma_mount_index<F>(v: Seq<(Seq<char>, F)>, point: Seq<char>)
    ensures
        -1 <= mount_index(v, point) < v.len(),
        mount_index(v, point) >= 0 ==> v[mount_index(v, point)].0 == point,
        mount_index(v, point) < 0 ==> forall|j: int| 0 <= j < v.len() ==> #[trigger] v[j].0 != point,
    decreases v.len(),
{
    if v.len() > 0 && v[0].0 != point {
        lemma_mount_index(v.drop_first(), point);
        if mount_index(v, point) < 0 {
            assert forall|j: int| 0 <= j < v.len() implies #[trigger] v[j].0 != point by {
                if j > 0 {
                    assert(v.drop_first()[j - 1] == v[j]);
                }
            }
        }
    }
}

/// In a well-formed table, a point names at most one mount.
proof fn lemma_mount_index_unique(v: Seq<(Seq<char>, Seq<FileView>)>, point: Seq<char>, k: int)
    requires
        vfs_wf(v),
        0 <= k < v.len(),
        v[k].0 == point,
    ensures
        mount_index(v, point) == k,
{
    lemma_mount_index(v, point);
    let i = mount_index(v, point);
    if i != k {
        lemma_less_irreflexive(point);
        if i < k {
            assert(seq_less(v[i].0, v[k].0));
        } else {
            assert(seq_less(v[k].0, v[i].0));
        }
    }
}

proof fn lemma_insert_pos(v: Seq<(Seq<char>, Seq<FileView>)>, point: Seq<char>)
    ensures
        0 <= insert_pos(v, point) <= v.len(),
        forall|j: int| 0 <= j < insert_pos(v, point) ==> seq_less(#[trigger] v[j].0, point),
        insert_pos(v, point) < v.len() ==> !seq_less(v[insert_pos(v, point)].0, point),
    decreases v.len(),
{
    if v.len() > 0 && seq_less(v[0].0, point) {
        lemma_insert_pos(v.drop_first(), point);
        assert forall|j: int| 0 <= j < insert_pos(v, point) implies seq_less(#[trigger] v[j].0, point) by {
            if j > 0 {
                assert(v.drop_first()[j - 1] == v[j]);
            }
        }
    }
}

/// Inserting a new point where `insert_pos` says keeps the table well formed.
proof fn lemma_insert_sorted(v: Seq<(Seq<char>, Seq<FileView>)>, point: Seq<char>, f: Seq<FileView>)
    requires
        vfs_wf(v),
        fs_wf(f),
        mount_index(v, point) < 0,
    ensures
        vfs_wf(v.insert(insert_pos(v, point), (point, f))),
{
    let k = insert_pos(v, point);
    lemma_insert_pos(v, point);
    lemma_mount_index(v, point);
    let w = v.insert(k, (point, f));
    if k < v.len() {
        lemma_less_total(v[k].0, point);
    }
    assert forall|i: int, j: int| 0 <= i < j < w.len() implies seq_less(#[trigger] w[i].0, #[trigger] w[j].0) by {
        if j < k {
            assert(w[i] == v[i] && w[j] == v[j]);
        } else if j == k {
            assert(w[i] == v[i]);
        } else if i < k {
            assert(w[i] == v[i] && w[j] == v[j - 1]);
            assert(seq_less(point, v[k].0));
            if j - 1 > k {
                lemma_less_transitive(point, v[k].0, v[j - 1].0);
            }
            lemma_less_transitive(v[i].0, point, v[j - 1].0);
        } else if i == k {
            assert(w[j] == v[j - 1]);
            if j - 1 > k {
                lemma_less_transitive(point, v[k].0, v[j - 1].0);
            }
        } else {
            assert(w[i] == v[i - 1] && w[j] == v[j - 1]);
        }
    }
    assert forall|i: int| 0 <= i < w.len() implies fs_wf(#[trigger] w[i].1) by {
        if i < k {
            assert(w[i] == v[i]);
        } else if i > k {
            assert(w[i] == v[i - 1]);
        }
    }
}

/// What a handle opened through the mount table is attached to.
pub struct HandleView {
    /// The mount, or none for the table itself (the path `/`).
    pub mount: Option<int>,
    pub node: int,
    pub perms: u8,
    pub cursor: usize,
    pub path: Option<Seq<char>>,
}

impl HandleView {
    /// The mount, as a position in the table.
    pub open spec fn mount_usize(&self) -> Option<usize> {
        match self.mount {
            Some(i) => Some(i as usize),
            None => None,
        }
    }
}

/// One step of opening through the table: a handle, or a link to follow.
pub enum OpenStep {
    Done(HandleView),
    Link(Seq<char>),
}

/// Opening `path` once: `/` is the table itself, with the options'
/// permissions; another path is opened in the deepest mount it lies under.
pub open spec fn open_once(v: Seq<(Seq<char>, Seq<FileView>)>, path: Seq<char>, options: u32, now: u64) -> (
    Seq<(Seq<char>, Seq<FileView>)>,
    Result<OpenStep, FSErrorKind>,
) {
    if path == seq![sep()] {
        (
            v,
            Ok(
                OpenStep::Done(
                    HandleView {
                        mount: None,
                        node: 0,
                        perms: #[verifier::truncate] ((options & 15) as u8),
                        cursor: 0,
                        path: Some(path),
                    },
                ),
            ),
        )
    } else {
        match deepest_mount(v, path) {
            None => (v, Err(FSErrorKind::NotFound)),
            Some((i, rest)) => {
                let (f2, r) = open_spec(v[i].1, rest, options, now);
                (
                    v.update(i, (v[i].0, f2)),
                    match r {
                        Err(e) => Err(e),
                        Ok(OpenView::Node { node, perms, cursor }) => Ok(
                            OpenStep::Done(
                                HandleView { mount: Some(i), node, perms, cursor, path: None },
                            ),
                        ),
                        Ok(OpenView::Link(t)) => Ok(OpenStep::Link(t)),
                    },
                )
            },
        }
    }
}

/// Opening `path` and following links, at most `fuel` opens deep: `None`
/// when the fuel runs out. A handle reached through a link carries the
/// link's target as its path.
pub open spec fn open_follow(
    v: Seq<(Seq<char>, Seq<FileView>)>,
    path: Seq<char>,
    options: u32,
    now: u64,
    fuel: nat,
) -> (Seq<(Seq<char>, Seq<FileView>)>, Option<Result<HandleView, FSErrorKind>>)
    decreases fuel,
{
    if fuel == 0 {
        (v, None)
    } else {
        let (v1, r) = open_once(v, path, options, now);
        match r {
            Err(e) => (v1, Some(Err(e))),
            Ok(OpenStep::Done(h)) => (v1, Some(Ok(h))),
            Ok(OpenStep::Link(t)) => {
                let (v2, r2) = open_follow(v1, t, options, now, (fuel - 1) as nat);
                (
                    v2,
                    match r2 {
                        Some(Ok(h)) => Some(
                            Ok(
                                HandleView {
                                    mount: h.mount,
                                    node: h.node,
                                    perms: h.perms,
                                    cursor: h.cursor,
                                    path: Some(t),
                                },
                            ),
                        ),
                        other => other,
                    },
                )
            },
        }
    }
}

/// Following the links from `path` comes to an end.
pub open spec fn open_ends(v: Seq<(Seq<char>, Seq<FileView>)>, path: Seq<char>, options: u32, now: u64) -> bool {
    exists|fuel: nat| (#[trigger] open_follow(v, path, options, now, fuel)).1 is Some
}

/// Enough fuel to follow the links from `path` to their end.
pub open spec fn open_fuel(v: Seq<(Seq<char>, Seq<FileView>)>, path: Seq<char>, options: u32, now: u64) -> nat {
    choose|fuel: nat| (#[trigger] open_follow(v, path, options, now, fuel)).1 is Some
}

/// Opening `path`, links followed to their end.
pub open spec fn vfs_open_spec(v: Seq<(Seq<char>, Seq<FileView>)>, path: Seq<char>, options: u32, now: u64) -> (
    Seq<(Seq<char>, Seq<FileView>)>,
    Result<HandleView, FSErrorKind>,
) {
    let (v2, r) = open_follow(v, path, options, now, open_fuel(v, path, options, now));
    (v2, r->Some_0)
}

/// Unlinking `path` in the deepest mount it lies under: the mount and the
/// detached node.
pub open spec fn vfs_unlink_spec(v: Seq<(Seq<char>, Seq<FileView>)>, path: Seq<char>, options: u32) -> (
    Seq<(Seq<char>, Seq<FileView>)>,
    Result<(int, int), FSErrorKind>,
) {
    match deepest_mount(v, path) {
        None => (v, Err(FSErrorKind::NotFound)),
        Some((i, rest)) => {
            let (f2, r) = unlink_spec(v[i].1, rest, options);
            (
                v.update(i, (v[i].0, f2)),
                match r {
                    Ok(n) => Ok((i, n)),
                    Err(e) => Err(e),
                },
            )
        },
    }
}

/// The names the table lists: its mount points, in order.
pub open spec fn points_of(v: Seq<(Seq<char>, Seq<FileView>)>) -> Seq<Seq<char>> {
    v.map_values(|m: (Seq<char>, Seq<FileView>)| m.0)
}

/// The first line of the table's full listing.
pub const VFS_LISTING_HEADER: &'static str = "VFS with mounts:\n";

/// Every file in every mount is small enough to be read to its end: the
/// buffer that reading doubles stays within what a `Vec` can hold.
pub open spec fn files_bounded(v: Seq<(Seq<char>, Seq<FileView>)>) -> bool {
    forall|i: int, n: int|
        0 <= i < v.len() && 0 <= n < v[i].1.len() ==> ((#[trigger] v[i].1[n]).node matches NodeView::File(
            d,
        ) ==> 2 * d.len() <= isize::MAX)
}

/// A handle refers to something in the table.
pub open spec fn handle_in(v: Seq<(Seq<char>, Seq<FileView>)>, mount: Option<usize>, node: usize) -> bool {
    match mount {
        Some(i) => i < v.len() && node < v[i as int].1.len(),
        None => true,
    }
}

/// What reading the table itself at `offset` into `cap` bytes gives; a
/// read with nothing left fails with `UnexpectedEOF`.
pub open spec fn table_read_spec(v: Seq<(Seq<char>, Seq<FileView>)>, offset: int, cap: int) -> Result<Seq<u8>, FSErrorKind> {
    let (bytes, done) = dir_display(points_of(v), offset, cap);
    if bytes.len() == 0 && done {
        Err(FSErrorKind::UnexpectedEOF)
    } else {
        Ok(bytes)
    }
}

/// What reading through a handle gives.
pub open spec fn vfs_read_spec(
    v: Seq<(Seq<char>, Seq<FileView>)>,
    mount: Option<usize>,
    node: usize,
    perms: u8,
    offset: int,
    cap: int,
) -> Result<Seq<u8>, FSErrorKind> {
    match mount {
        Some(i) => handle_read_spec(perms, v[i as int].1[node as int], offset, cap),
        None => if has_perm(perms, 1) || has_perm(perms, 2) {
            table_read_spec(v, offset, cap)
        } else {
            Err(FSErrorKind::PermissionDenied)
        },
    }
}

/// What writing through a handle does: the table itself cannot be written.
pub open spec fn vfs_write_spec(
    v: Seq<(Seq<char>, Seq<FileView>)>,
    mount: Option<usize>,
    node: usize,
    perms: u8,
    data: Seq<u8>,
    offset: int,
    now: u64,
) -> (Seq<(Seq<char>, Seq<FileView>)>, Result<usize, FSErrorKind>) {
    if !has_perm(perms, 2) {
        (v, Err(FSErrorKind::PermissionDenied))
    } else {
        match mount {
            Some(i) => {
                let (f2, r) = write_spec(v[i as int].1, node as int, data, offset, now);
                (v.update(i as int, (v[i as int].0, f2)), r)
            },
            None => (v, Err(FSErrorKind::NotSupported)),
        }
    }
}

/// Writing through a handle may overflow the offset only for a file.
pub open spec fn write_fits(v: Seq<(Seq<char>, Seq<FileView>)>, mount: Option<usize>, node: usize, offset: int, len: int) -> bool {
    match mount {
        Some(i) => v[i as int].1[node as int].node is File ==> offset + len <= usize::MAX,
        None => true,
    }
}

/// A handle opened through the table.
pub struct VfsFile {
    /// The mount the node lies in, or none for the table itself.
    pub mount: Option<usize>,
    pub file: File,
}

/// What opening through the table gives: a handle on an in-memory file
/// system (or the table itself), or a handle on a node of the process file
/// system mounted at this position.
pub enum VfsNode {
    Ram(VfsFile),
    Proc(usize, File),
}

impl VfsFile {
    /// The mount, as an integer.
    pub open spec fn mount_index(&self) -> Option<int> {
        match self.mount {
            Some(i) => Some(i as int),
            None => None,
        }
    }
}

/// A handle agrees with its view.
pub open spec fn handle_agrees(h: VfsFile, hv: HandleView) -> bool {
    &&& match h.mount {
        Some(i) => hv.mount == Some(i as int),
        None => hv.mount is None,
    }
    &&& h.file.node == hv.node
    &&& h.file.perms@ == hv.perms
    &&& h.file.cursor@ == hv.cursor
    &&& match h.file.path {
        Some(p) => hv.path == Some(p@),
        None => hv.path is None,
    }
}

/// A result of opening agrees with the spec's result.
pub open spec fn vfs_open_agrees(r: FSResult<VfsFile>, s: Result<HandleView, FSErrorKind>) -> bool {
    match r {
        Ok(h) => s matches Ok(hv) && handle_agrees(h, hv),
        Err(e) => s == Err::<HandleView, FSErrorKind>(e.kind_of()),
    }
}

impl VFS {
    pub closed spec fn view(&self) -> Seq<(Seq<char>, Seq<FileView>)> {
        self.mounts@.map_values(|m: Mount| (m.point@, m.fs.view()))
    }

    /// The process file systems mounted: mount point and nodes of each.
    pub closed spec fn proc_view(&self) -> Seq<(Seq<char>, Seq<ProcView>)> {
        self.procs@.map_values(|m: ProcMount| (m.point@, m.fs.view()))
    }

    pub open spec fn wf(&self) -> bool {
        &&& vfs_wf(self.view())
        &&& procs_wf(self.proc_view())
        &&& proc_points_unique(self.proc_view())
        &&& tables_disjoint(self.view(), self.proc_view())
    }

    /// An empty mount table.
    pub fn new() -> (r: Self)
        ensures
            r.wf(),
            r.view() == Seq::<(Seq<char>, Seq<FileView>)>::empty(),
            r.proc_view() == Seq::<(Seq<char>, Seq<ProcView>)>::empty(),
    {
        let r = VFS { mounts: Vec::new(), procs: Vec::new() };
        assert(r.view() =~= Seq::<(Seq<char>, Seq<FileView>)>::empty());
        assert(r.proc_view() =~= Seq::<(Seq<char>, Seq<ProcView>)>::empty());
        r
    }

    /// The number of mounts.
    pub fn len(&self) -> (r: usize)
        ensures
            r == self.view().len(),
    {
        self.mounts.len()
    }

    /// The file system mounted at position `i`.
    pub fn mounted(&self, i: usize) -> (r: &RamFS)
        requires
            i < self.view().len(),
        ensures
            r.view() == self.view()[i as int].1,
    {
        &self.mounts[i].fs
    }

    /// Position of the mount at exactly `point`.
    pub fn find_mount(&self, point: Path<'_>) -> (r: Option<usize>)
        ensures
            match r {
                Some(i) => mount_index(self.view(), point@) == i && i < self.view().len(),
                None => mount_index(self.view(), point@) < 0,
            },
    {
        let ghost v = self.view();
        let mut i: usize = 0;
        while i < self.mounts.len()
            invariant
                v == self.view(),
                i <= v.len(),
                forall|j: int| 0 <= j < i ==> #[trigger] v[j].0 != point@,
            decreases v.len() - i,
        {
            if self.mounts[i].point.as_path().same_as(point) {
                proof {
                    assert(v[i as int].0 == self.mounts@[i as int].point@);
                    lemma_mount_index(v, point@);
                    if mount_index(v, point@) != i {
                        assert(mount_index(v, point@) < 0 || mount_index(v, point@) < i || mount_index(v, point@) > i);
                        lemma_first_match(v, point@, i as int);
                    }
                }
                return Some(i);
            }
            proof {
                assert(v[i as int].0 == self.mounts@[i as int].point@);
            }
            i = i + 1;
        }
        proof {
            lemma_mount_index(v, point@);
        }
        None
    }

    /// Where a new point goes to keep the table in order.
    fn insert_position(&self, point: Path<'_>) -> (r: usize)
        ensures
            r == insert_pos(self.view(), point@),
            r <= self.view().len(),
    {
        let ghost v = self.view();
        let mut i: usize = 0;
        proof {
            lemma_insert_pos(v, point@);
        }
        while i < self.mounts.len() && str_less(self.mounts[i].point.as_str(), point.as_str())
            invariant
                v == self.view(),
                i <= v.len(),
                i <= insert_pos(v, point@),
                0 <= insert_pos(v, point@) <= v.len(),
                forall|j: int| 0 <= j < insert_pos(v, point@) ==> seq_less(#[trigger] v[j].0, point@),
                insert_pos(v, point@) < v.len() ==> !seq_less(v[insert_pos(v, point@)].0, point@),
            decreases v.len() - i,
        {
            proof {
                assert(v[i as int].0 == self.mounts@[i as int].point@);
            }
            i = i + 1;
        }
        proof {
            if i < v.len() {
                assert(v[i as int].0 == self.mounts@[i as int].point@);
            }
        }
        i
    }

    /// Mounts `fs` at `point`. A point already taken gets the new file
    /// system (a process file system mounted there leaves the table), and
    /// the call fails with `AlreadyExists`.
    pub fn mount(&mut self, point: PathBuf, fs: RamFS) -> (r: FSResult<()>)
        requires
            old(self).wf(),
            fs.wf(),
        ensures
            final(self).wf(),
            final(self).view() == mount_spec(old(self).view(), point@, fs.view()).0,
            final(self).proc_view() == unmount_proc_spec(old(self).proc_view(), point@).0,
            match r {
                Ok(()) => mount_spec(old(self).view(), point@, fs.view()).1 is Ok
                    && mount_index(old(self).proc_view(), point@) < 0,
                Err(e) => (mount_spec(old(self).view(), point@, fs.view()).1 is Err
                    || mount_index(old(self).proc_view(), point@) >= 0)
                    && e.kind_of() == FSErrorKind::AlreadyExists
                    && e.repr() == (crate::fs::FSErrRepr::Custom { kind: FSErrorKind::AlreadyExists, err: ErrorCause::MountExists }),
            },
    {
        let had_proc = self.unmount_proc(point.as_path()).is_ok();
        let ghost v = self.view();
        let ghost fv = fs.view();
        match self.find_mount(point.as_path()) {
            Some(i) => {
                self.mounts[i].fs = fs;
                proof {
                    lemma_mount_index(v, point@);
                    let t = v.update(i as int, (point@, fv));
                    assert(self.view() =~= t) by {
                        assert forall|j: int| 0 <= j < t.len() implies #[trigger] self.view()[j] == t[j] by {
                            if j == i {
                                assert(self.view()[j] == (self.mounts@[j].point@, self.mounts@[j].fs.view()));
                            }
                        }
                    }
                    assert forall|a: int, b: int| 0 <= a < b < t.len() implies seq_less(#[trigger] t[a].0, #[trigger] t[b].0) by {
                        assert(t[a].0 == v[a].0 && t[b].0 == v[b].0);
                    }
                    assert forall|a: int| 0 <= a < t.len() implies fs_wf(#[trigger] t[a].1) by {
                        if a != i {
                            assert(t[a] == v[a]);
                        }
                    }
                }
                Err(FSError::custom(FSErrorKind::AlreadyExists, ErrorCause::MountExists))
            },
            None => {
                let k = self.insert_position(point.as_path());
                let ghost pv = point@;
                self.mounts.insert(k, Mount { point, fs });
                proof {
                    let t = v.insert(k as int, (pv, fv));
                    assert(self.view() =~= t);
                    lemma_insert_sorted(v, pv, fv);
                }
                if had_proc {
                    Err(FSError::custom(FSErrorKind::AlreadyExists, ErrorCause::MountExists))
                } else {
                    Ok(())
                }
            },
        }
    }

    /// Position of the process file system mounted at exactly `point`.
    fn find_proc(&self, point: Path<'_>) -> (r: Option<usize>)
        ensures
            match r {
                Some(j) => mount_index(self.proc_view(), point@) == j && j < self.proc_view().len(),
                None => mount_index(self.proc_view(), point@) < 0,
            },
    {
        let ghost pv = self.proc_view();
        let mut j: usize = 0;
        while j < self.procs.len()
            invariant
                pv == self.proc_view(),
                j <= pv.len(),
                forall|k: int| 0 <= k < j ==> #[trigger] pv[k].0 != point@,
            decreases pv.len() - j,
        {
            if self.procs[j].point.as_path().same_as(point) {
                proof {
                    assert(pv[j as int].0 == self.procs@[j as int].point@);
                    lemma_first_match(pv, point@, j as int);
                }
                return Some(j);
            }
            proof {
                assert(pv[j as int].0 == self.procs@[j as int].point@);
            }
            j = j + 1;
        }
        proof {
            lemma_mount_index(pv, point@);
        }
        None
    }

    /// The number of process file systems mounted.
    pub fn proc_len(&self) -> (r: usize)
        ensures
            r == self.proc_view().len(),
    {
        self.procs.len()
    }

    /// The process file system mounted at position `j`.
    pub fn proc_mounted(&self, j: usize) -> (r: &ProcFS)
        requires
            j < self.proc_view().len(),
        ensures
            r.view() == self.proc_view()[j as int].1,
    {
        &self.procs[j].fs
    }

    /// Mounts the process file system `fs` at `point`; see `mount_proc_spec`.
    pub fn mount_proc(&mut self, point: PathBuf, fs: ProcFS) -> (r: FSResult<()>)
        requires
            old(self).wf(),
            fs.wf(),
        ensures
            final(self).wf(),
            final(self).view() == mount_proc_spec(old(self).view(), old(self).proc_view(), point@, fs.view()).0,
            final(self).proc_view() == mount_proc_spec(old(self).view(), old(self).proc_view(), point@, fs.view()).1,
            match r {
                Ok(()) => mount_proc_spec(old(self).view(), old(self).proc_view(), point@, fs.view()).2 is Ok,
                Err(e) => mount_proc_spec(old(self).view(), old(self).proc_view(), point@, fs.view()).2
                    == Err::<(), FSErrorKind>(e.kind_of())
                    && e.repr() == (crate::fs::FSErrRepr::Custom { kind: FSErrorKind::AlreadyExists, err: ErrorCause::MountExists }),
            },
    {
        let ghost v0 = self.view();
        let ghost fv = fs.view();
        let had_ram = match self.find_mount(point.as_path()) {
            Some(_) => {
                let _ = self.unmount(point.as_path());
                true
            },
            None => {
                proof {
                    lemma_mount_index(self.view(), point@);
                }
                false
            },
        };
        let ghost pv = self.proc_view();
        let ghost v1 = self.view();
        assert(forall|i: int| 0 <= i < v1.len() ==> #[trigger] v1[i].0 != point@);
        match self.find_proc(point.as_path()) {
            Some(j) => {
                self.procs[j].fs = fs;
                proof {
                    lemma_mount_index(pv, point@);
                    let t = pv.update(j as int, (point@, fv));
                    assert(self.proc_view() =~= t) by {
                        assert forall|k: int| 0 <= k < t.len() implies #[trigger] self.proc_view()[k] == t[k] by {
                            if k == j {
                                assert(self.proc_view()[k] == (self.procs@[k].point@, self.procs@[k].fs.view()));
                            }
                        }
                    }
                    assert forall|k: int| 0 <= k < t.len() implies proc_wf(#[trigger] t[k].1) by {
                        if k != j {
                            assert(t[k] == pv[k]);
                        }
                    }
                    assert forall|a: int, b: int| 0 <= a < t.len() && 0 <= b < t.len() && a != b implies #[trigger] t[a].0
                        != #[trigger] t[b].0 by {
                        assert(t[a].0 == pv[a].0 && t[b].0 == pv[b].0);
                    }
                    assert forall|a: int, b: int| 0 <= a < v1.len() && 0 <= b < t.len() implies #[trigger] v1[a].0
                        != #[trigger] t[b].0 by {
                        assert(t[b].0 == pv[b].0);
                    }
                }
                Err(FSError::custom(FSErrorKind::AlreadyExists, ErrorCause::MountExists))
            },
            None => {
                let ghost ptv = point@;
                self.procs.push(ProcMount { point, fs });
                proof {
                    let t = pv.push((ptv, fv));
                    assert(self.proc_view() =~= t);
                    assert forall|k: int| 0 <= k < t.len() implies proc_wf(#[trigger] t[k].1) by {
                        if k < pv.len() {
                            assert(t[k] == pv[k]);
                        }
                    }
                    lemma_mount_index(pv, ptv);
                    assert forall|a: int, b: int| 0 <= a < t.len() && 0 <= b < t.len() && a != b implies #[trigger] t[a].0
                        != #[trigger] t[b].0 by {
                        if a < pv.len() {
                            assert(t[a] == pv[a]);
                        }
                        if b < pv.len() {
                            assert(t[b] == pv[b]);
                        }
                    }
                    assert forall|a: int, b: int| 0 <= a < v1.len() && 0 <= b < t.len() implies #[trigger] v1[a].0
                        != #[trigger] t[b].0 by {
                        if b < pv.len() {
                            assert(t[b] == pv[b]);
                        }
                    }
                }
                if had_ram {
                    Err(FSError::custom(FSErrorKind::AlreadyExists, ErrorCause::MountExists))
                } else {
                    Ok(())
                }
            },
        }
    }

    /// Unmounts the process file system at `point` and hands it back.
    pub fn unmount_proc(&mut self, point: Path<'_>) -> (r: FSResult<ProcFS>)
        requires
            old(self).wf(),
        ensures
            final(self).wf(),
            final(self).view() == old(self).view(),
            final(self).proc_view() == unmount_proc_spec(old(self).proc_view(), point@).0,
            forall|j: int| 0 <= j < final(self).proc_view().len() ==> #[trigger] final(self).proc_view()[j].0 != point@,
            match r {
                Ok(f) => unmount_proc_spec(old(self).proc_view(), point@).1 == Ok::<Seq<ProcView>, FSErrorKind>(f.view())
                    && f.wf(),
                Err(e) => unmount_proc_spec(old(self).proc_view(), point@).1 == Err::<Seq<ProcView>, FSErrorKind>(e.kind_of()),
            },
    {
        let ghost pv = self.proc_view();
        let ghost v = self.view();
        match self.find_proc(point) {
            None => {
                proof {
                    lemma_mount_index(pv, point@);
                }
                Err(FSError::with_message(FSErrorKind::NotFound, "the mount deos not exist"))
            },
            Some(j) => {
                let m = self.procs.remove(j);
                proof {
                    lemma_mount_index(pv, point@);
                    let t = pv.remove(j as int);
                    assert(self.proc_view() =~= t);
                    assert(pv[j as int] == (m.point@, m.fs.view()));
                    assert forall|k: int| 0 <= k < t.len() implies proc_wf(#[trigger] t[k].1) && t[k].0 != point@ by {
                        let k2 = if k < j { k } else { k + 1 };
                        assert(t[k] == pv[k2]);
                        assert(pv[k2].0 != pv[j as int].0);
                    }
                    assert forall|a: int, b: int| 0 <= a < t.len() && 0 <= b < t.len() && a != b implies #[trigger] t[a].0
                        != #[trigger] t[b].0 by {
                        let a2 = if a < j { a } else { a + 1 };
                        let b2 = if b < j { b } else { b + 1 };
                        assert(t[a] == pv[a2] && t[b] == pv[b2]);
                    }
                    assert forall|a: int, b: int| 0 <= a < v.len() && 0 <= b < t.len() implies #[trigger] v[a].0
                        != #[trigger] t[b].0 by {
                        let b2 = if b < j { b } else { b + 1 };
                        assert(t[b] == pv[b2]);
                    }
                }
                Ok(m.fs)
            },
        }
    }

    /// Unmounts the file system at `point` and hands it back.
    pub fn unmount(&mut self, point: Path<'_>) -> (r: FSResult<RamFS>)
        requires
            old(self).wf(),
        ensures
            final(self).wf(),
            final(self).view() == unmount_spec(old(self).view(), point@).0,
            final(self).proc_view() == old(self).proc_view(),
            forall|i: int| 0 <= i < final(self).view().len() ==> #[trigger] final(self).view()[i].0 != point@,
            match r {
                Ok(f) => unmount_spec(old(self).view(), point@).1 == Ok::<Seq<FileView>, FSErrorKind>(f.view()),
                Err(e) => unmount_spec(old(self).view(), point@).1 == Err::<Seq<FileView>, FSErrorKind>(e.kind_of()),
            },
    {
        let ghost v = self.view();
        let ghost pv = self.proc_view();
        match self.find_mount(point) {
            None => {
                proof {
                    lemma_mount_index(v, point@);
                }
                Err(FSError::with_message(FSErrorKind::NotFound, "the mount deos not exist"))
            },
            Some(i) => {
                let m = self.mounts.remove(i);
                proof {
                    let t = v.remove(i as int);
                    assert(self.view() =~= t);
                    assert(v[i as int] == (m.point@, m.fs.view()));
                    lemma_mount_index(v, point@);
                    assert forall|a: int| 0 <= a < t.len() implies #[trigger] t[a].0 != point@ by {
                        let a2 = if a < i { a } else { a + 1 };
                        assert(t[a] == v[a2]);
                        if v[a2].0 == point@ {
                            lemma_mount_index_unique(v, point@, a2);
                        }
                    }
                    assert forall|a: int, b: int| 0 <= a < t.len() && 0 <= b < pv.len() implies #[trigger] t[a].0
                        != #[trigger] pv[b].0 by {
                        let a2 = if a < i { a } else { a + 1 };
                        assert(t[a] == v[a2]);
                    }
                    assert forall|a: int, b: int| 0 <= a < b < t.len() implies seq_less(#[trigger] t[a].0, #[trigger] t[b].0) by {
                        let a2 = if a < i { a } else { a + 1 };
                        let b2 = if b < i { b } else { b + 1 };
                        assert(t[a] == v[a2] && t[b] == v[b2]);
                    }
                    assert forall|a: int| 0 <= a < t.len() implies fs_wf(#[trigger] t[a].1) by {
                        let a2 = if a < i { a } else { a + 1 };
                        assert(t[a] == v[a2]);
                    }
                }
                Ok(m.fs)
            },
        }
    }

    /// The deepest in-memory mount `path` lies under, found by trying the
    /// path and then its parents, and the rest of the path below the mount
    /// point. (`proc_target` says when a process file system lies deeper.)
    pub fn deepest_matching_mount<'a>(&self, path: Path<'a>) -> (r: FSResult<(usize, Path<'a>)>)
        ensures
            match r {
                Ok((i, rest)) => deepest_mount(self.view(), path@) == Some((i as int, rest@))
                    && i < self.view().len(),
                Err(e) => deepest_mount(self.view(), path@) is None && e.kind_of() == FSErrorKind::NotFound,
            },
    {
        let ghost v = self.view();
        let mut anc = path.ancestors();
        loop
            invariant
                v == self.view(),
                match anc.pending() {
                    Some(a) => a.is_prefix_of(path@) && deepest_from(v, path@, a) == deepest_mount(v, path@),
                    None => deepest_mount(v, path@) is None,
                },
            decreases match anc.pending() {
                Some(a) => a.len() + 1,
                None => 0,
            },
        {
            let ghost before = anc.pending();
            match anc.next() {
                None => {
                    return Err(FSError::with_message(FSErrorKind::NotFound, "provided path matches no mount"));
                },
                Some(a) => {
                    proof {
                        lemma_parent_prefix(a@);
                        if let Some(q) = path_parent(a@) {
                            assert(q.is_prefix_of(path@)) by {
                                assert forall|j: int| 0 <= j < q.len() implies q[j] == path@[j] by {
                                    assert(q[j] == a@[j]);
                                }
                            }
                        }
                    }
                    match self.find_mount(a) {
                        Some(i) => {
                            match path.strip_prefix(a) {
                                Some(rest) => {
                                    return Ok((i, rest));
                                },
                                None => {
                                    return Err(FSError::with_message(FSErrorKind::NotFound, "provided path matches no mount"));
                                },
                            }
                        },
                        None => {},
                    }
                },
            }
        }
    }

    /// Opens `path`, following links at most `fuel` deep.
    fn open_with_fuel(&mut self, path: Path<'_>, options: OpenOptions, now: u64, Ghost(fuel): Ghost<nat>) -> (r: FSResult<VfsFile>)
        requires
            old(self).wf(),
            open_follow(old(self).view(), path@, options@, now, fuel).1 is Some,
        ensures
            final(self).wf(),
            final(self).view() == open_follow(old(self).view(), path@, options@, now, fuel).0,
            final(self).proc_view() == old(self).proc_view(),
            vfs_open_agrees(r, open_follow(old(self).view(), path@, options@, now, fuel).1->Some_0),
            r matches Ok(h) ==> handle_in(final(self).view(), h.mount, h.file.node),
        decreases fuel,
    {
        let ghost v = self.view();
        let slash = Path::new("/");
        proof {
            reveal_strlit("/");
            assert(slash@ =~= seq![sep()]);
        }
        if path.same_as(slash) {
            let mut f = File::new(0);
            f.perms = FPerms::from_options(options);
            let root = VfsFile { mount: None, file: f.with_path(PathBuf::from_str_slice("/")) };
            return Ok(root);
        }
        let (i, rest) = match self.deepest_matching_mount(path) {
            Err(e) => return Err(e),
            Ok(x) => x,
        };
        let opened = self.mounts[i].fs.open(rest, options, now);
        proof {
            let t = v.update(i as int, (v[i as int].0, open_spec(v[i as int].1, rest@, options@, now).0));
            assert(self.view() =~= t) by {
                assert forall|j: int| 0 <= j < t.len() implies #[trigger] self.view()[j] == t[j] by {
                    if j == i {
                        assert(self.view()[j] == (self.mounts@[j].point@, self.mounts@[j].fs.view()));
                    }
                }
            }
            assert forall|a: int, b: int| 0 <= a < b < t.len() implies seq_less(#[trigger] t[a].0, #[trigger] t[b].0) by {
                assert(t[a].0 == v[a].0 && t[b].0 == v[b].0);
            }
            assert forall|a: int| 0 <= a < t.len() implies fs_wf(#[trigger] t[a].1) by {
                if a != i {
                    assert(t[a] == v[a]);
                }
            }
        }
        match opened {
            Err(e) => Err(e),
            Ok(Opened::File(f)) => Ok(VfsFile { mount: Some(i), file: f }),
            Ok(Opened::FollowLink(target)) => {
                let r = self.open_with_fuel(target.as_path(), options, now, Ghost((fuel - 1) as nat));
                match r {
                    Err(e) => Err(e),
                    Ok(h) => Ok(VfsFile { mount: h.mount, file: h.file.with_path(target) }),
                }
            },
        }
    }

    /// Opens `path` among the in-memory file systems, following links to
    /// their end: `/` is the table itself; another path is opened in the
    /// deepest in-memory mount it lies under. `open_node` opens in whichever
    /// kind of file system the path lies in.
    pub fn open(&mut self, path: Path<'_>, options: OpenOptions, now: u64) -> (r: FSResult<VfsFile>)
        requires
            old(self).wf(),
            open_ends(old(self).view(), path@, options@, now),
        ensures
            final(self).wf(),
            final(self).view() == vfs_open_spec(old(self).view(), path@, options@, now).0,
            final(self).proc_view() == old(self).proc_view(),
            vfs_open_agrees(r, vfs_open_spec(old(self).view(), path@, options@, now).1),
            r matches Ok(h) ==> handle_in(final(self).view(), h.mount, h.file.node),
    {
        let ghost fuel = open_fuel(self.view(), path@, options@, now);
        self.open_with_fuel(path, options, now, Ghost(fuel))
    }

    /// The process file system `path` is opened in, if the deepest mount it
    /// lies under holds one, and the rest of the path below that mount point;
    /// see `proc_target`.
    pub fn proc_target<'a>(&self, path: Path<'a>) -> (r: Option<(usize, Path<'a>)>)
        ensures
            match r {
                Some((j, rest)) => proc_target(self.view(), self.proc_view(), path@) == Some((j as int, rest@))
                    && j < self.proc_view().len(),
                None => proc_target(self.view(), self.proc_view(), path@) is None,
            },
    {
        let ghost v = self.view();
        let ghost pv = self.proc_view();
        let slash = Path::new("/");
        proof {
            reveal_strlit("/");
            assert(slash@ =~= seq![sep()]);
        }
        if path.same_as(slash) {
            return None;
        }
        let mut anc = path.ancestors();
        loop
            invariant
                v == self.view(),
                pv == self.proc_view(),
                path@ != seq![sep()],
                match anc.pending() {
                    Some(a) => a.is_prefix_of(path@) && proc_target_from(v, pv, path@, a) == proc_target(v, pv, path@),
                    None => proc_target(v, pv, path@) is None,
                },
            decreases match anc.pending() {
                Some(a) => a.len() + 1,
                None => 0,
            },
        {
            match anc.next() {
                None => {
                    return None;
                },
                Some(a) => {
                    proof {
                        lemma_parent_prefix(a@);
                        if let Some(q) = path_parent(a@) {
                            assert(q.is_prefix_of(path@)) by {
                                assert forall|j: int| 0 <= j < q.len() implies q[j] == path@[j] by {
                                    assert(q[j] == a@[j]);
                                }
                            }
                        }
                    }
                    if self.find_mount(a).is_some() {
                        return None;
                    }
                    match self.find_proc(a) {
                        Some(j) => {
                            return match path.strip_prefix(a) {
                                Some(rest) => Some((j, rest)),
                                None => None,
                            };
                        },
                        None => {},
                    }
                },
            }
        }
    }

    /// Opens `path` in whichever kind of file system the deepest mount it
    /// lies under holds: a process file system opens it there, with the
    /// registry `reg` (see `proc_open_spec`); otherwise it is opened as
    /// `open` does.
    pub fn open_node(&mut self, path: Path<'_>, options: OpenOptions, now: u64, reg: &DeviceRegistry) -> (r: FSResult<VfsNode>)
        requires
            old(self).wf(),
            proc_target(old(self).view(), old(self).proc_view(), path@) is None ==> open_ends(
                old(self).view(),
                path@,
                options@,
                now,
            ),
        ensures
            final(self).wf(),
            match proc_target(old(self).view(), old(self).proc_view(), path@) {
                Some((j, rest)) => {
                    let o = proc_open_spec(old(self).proc_view()[j].1, rest, options@, reg@);
                    &&& final(self).view() == old(self).view()
                    &&& final(self).proc_view() == old(self).proc_view().update(j, (old(self).proc_view()[j].0, o.0))
                    &&& match r {
                        Ok(VfsNode::Proc(k, f)) => k == j && o.1 == Ok::<int, FSErrorKind>(f.node as int)
                            && f.perms@ == #[verifier::truncate] ((options@ & 15) as u8) && f.cursor@ == 0 && f.path is None,
                        Ok(VfsNode::Ram(_)) => false,
                        Err(e) => o.1 == Err::<int, FSErrorKind>(e.kind_of()),
                    }
                },
                None => {
                    let o = vfs_open_spec(old(self).view(), path@, options@, now);
                    &&& final(self).view() == o.0
                    &&& final(self).proc_view() == old(self).proc_view()
                    &&& match r {
                        Ok(VfsNode::Ram(h)) => vfs_open_agrees(Ok::<VfsFile, FSError>(h), o.1),
                        Ok(VfsNode::Proc(_, _)) => false,
                        Err(e) => vfs_open_agrees(Err::<VfsFile, FSError>(e), o.1),
                    }
                },
            },
    {
        match self.proc_target(path) {
            None => match self.open(path, options, now) {
                Ok(h) => Ok(VfsNode::Ram(h)),
                Err(e) => Err(e),
            },
            Some((j, rest)) => {
                let ghost pv = self.proc_view();
                let opened = self.procs[j].fs.open(rest, options, reg);
                proof {
                    let t = pv.update(j as int, (pv[j as int].0, proc_open_spec(pv[j as int].1, rest@, options@, reg@).0));
                    assert(self.proc_view() =~= t) by {
                        assert forall|k: int| 0 <= k < t.len() implies #[trigger] self.proc_view()[k] == t[k] by {
                            if k == j {
                                assert(self.proc_view()[k] == (self.procs@[k].point@, self.procs@[k].fs.view()));
                            }
                        }
                    }
                    assert forall|k: int| 0 <= k < t.len() implies proc_wf(#[trigger] t[k].1) by {
                        if k != j {
                            assert(t[k] == pv[k]);
                        }
                    }
                }
                match opened {
                    Ok(f) => Ok(VfsNode::Proc(j, f)),
                    Err(e) => Err(e),
                }
            },
        }
    }

    /// Unlinks `path` in the deepest in-memory mount it lies under.
    /// `unlink_node` unlinks in whichever kind of file system the path lies
    /// in.
    pub fn unlink(&mut self, path: Path<'_>, options: UnlinkOptions) -> (r: FSResult<VfsFile>)
        requires
            old(self).wf(),
        ensures
            final(self).wf(),
            final(self).view() == vfs_unlink_spec(old(self).view(), path@, options@).0,
            final(self).proc_view() == old(self).proc_view(),
            match r {
                Ok(h) => vfs_unlink_spec(old(self).view(), path@, options@).1 matches Ok((i, n))
                    && h.mount == Some(i as usize) && h.file.node == n && h.file.cursor@ == 0
                    && h.file.perms@ == 0 && h.file.path is None,
                Err(e) => vfs_unlink_spec(old(self).view(), path@, options@).1 == Err::<(int, int), FSErrorKind>(e.kind_of()),
            },
    {
        let ghost v = self.view();
        let (i, rest) = match self.deepest_matching_mount(path) {
            Err(e) => return Err(e),
            Ok(x) => x,
        };
        let removed = self.mounts[i].fs.unlink(rest, options);
        proof {
            let t = v.update(i as int, (v[i as int].0, unlink_spec(v[i as int].1, rest@, options@).0));
            assert(self.view() =~= t) by {
                assert forall|j: int| 0 <= j < t.len() implies #[trigger] self.view()[j] == t[j] by {
                    if j == i {
                        assert(self.view()[j] == (self.mounts@[j].point@, self.mounts@[j].fs.view()));
                    }
                }
            }
            assert forall|a: int, b: int| 0 <= a < b < t.len() implies seq_less(#[trigger] t[a].0, #[trigger] t[b].0) by {
                assert(t[a].0 == v[a].0 && t[b].0 == v[b].0);
            }
            assert forall|a: int| 0 <= a < t.len() implies fs_wf(#[trigger] t[a].1) by {
                if a != i {
                    assert(t[a] == v[a]);
                }
            }
        }
        match removed {
            Err(e) => Err(e),
            Ok(f) => Ok(VfsFile { mount: Some(i), file: f }),
        }
    }

    /// Unlinks `path` in whichever kind of file system the deepest mount it
    /// lies under holds: a process file system unlinks it there (see
    /// `proc_unlink_spec`); otherwise it is unlinked as `unlink` does.
    pub fn unlink_node(&mut self, path: Path<'_>, options: UnlinkOptions) -> (r: FSResult<VfsNode>)
        requires
            old(self).wf(),
        ensures
            final(self).wf(),
            final(self).view() == unlink_node_spec(old(self).view(), old(self).proc_view(), path@, options@).0,
            final(self).proc_view() == unlink_node_spec(old(self).view(), old(self).proc_view(), path@, options@).1,
            match r {
                Ok(_) => unlink_node_spec(old(self).view(), old(self).proc_view(), path@, options@).2 is Ok,
                Err(e) => unlink_node_spec(old(self).view(), old(self).proc_view(), path@, options@).2
                    == Err::<(), FSErrorKind>(e.kind_of()),
            },
            match proc_target(old(self).view(), old(self).proc_view(), path@) {
                Some((j, rest)) => {
                    let o = proc_unlink_spec(old(self).proc_view()[j].1, rest, options@);
                    &&& final(self).view() == old(self).view()
                    &&& final(self).proc_view() == old(self).proc_view().update(j, (old(self).proc_view()[j].0, o.0))
                    &&& match r {
                        Ok(VfsNode::Proc(k, f)) => k == j && o.1 == Ok::<int, FSErrorKind>(f.node as int),
                        Ok(VfsNode::Ram(_)) => false,
                        Err(e) => o.1 == Err::<int, FSErrorKind>(e.kind_of()),
                    }
                },
                None => {
                    let o = vfs_unlink_spec(old(self).view(), path@, options@);
                    &&& final(self).view() == o.0
                    &&& final(self).proc_view() == old(self).proc_view()
                    &&& match r {
                        Ok(VfsNode::Ram(h)) => o.1 matches Ok((i, n)) && h.mount == Some(i as usize) && h.file.node == n,
                        Ok(VfsNode::Proc(_, _)) => false,
                        Err(e) => o.1 == Err::<(int, int), FSErrorKind>(e.kind_of()),
                    }
                },
            },
    {
        match self.proc_target(path) {
            None => match self.unlink(path, options) {
                Ok(h) => Ok(VfsNode::Ram(h)),
                Err(e) => Err(e),
            },
            Some((j, rest)) => {
                let ghost pv = self.proc_view();
                let removed = self.procs[j].fs.unlink(rest, options);
                proof {
                    let t = pv.update(j as int, (pv[j as int].0, proc_unlink_spec(pv[j as int].1, rest@, options@).0));
                    assert(self.proc_view() =~= t) by {
                        assert forall|k: int| 0 <= k < t.len() implies #[trigger] self.proc_view()[k] == t[k] by {
                            if k == j {
                                assert(self.proc_view()[k] == (self.procs@[k].point@, self.procs@[k].fs.view()));
                            }
                        }
                    }
                    assert forall|k: int| 0 <= k < t.len() implies proc_wf(#[trigger] t[k].1) by {
                        if k != j {
                            assert(t[k] == pv[k]);
                        }
                    }
                }
                match removed {
                    Ok(f) => Ok(VfsNode::Proc(j, f)),
                    Err(e) => Err(e),
                }
            },
        }
    }

    /// Flushes `path`: the in-memory file systems have nothing to write back,
    /// so this only checks that the path lies under an in-memory mount.
    pub fn flush(&self, path: Path<'_>) -> (r: FSResult<()>)
        ensures
            r is Ok <==> deepest_mount(self.view(), path@) is Some,
            r matches Err(e) ==> e.kind_of() == FSErrorKind::NotFound,
    {
        let (i, rest) = self.deepest_matching_mount(path)?;
        self.mounts[i].fs.flush(rest)
    }

    /// Flushes `path` in whichever kind of file system the deepest mount it
    /// lies under holds: a process file system files there the registered
    /// devices below it (see `ProcFS::flush`); otherwise as `flush` does.
    pub fn flush_node(&mut self, path: Path<'_>, reg: &DeviceRegistry) -> (r: FSResult<()>)
        requires
            old(self).wf(),
        ensures
            final(self).wf(),
            final(self).view() == old(self).view(),
            proc_target(old(self).view(), old(self).proc_view(), path@) is None ==> final(self).proc_view() == old(self).proc_view()
                && (r is Ok <==> deepest_mount(old(self).view(), path@) is Some),
            proc_target(old(self).view(), old(self).proc_view(), path@) matches Some((j, rest)) ==> proc_flushed(
                old(self).proc_view(),
                final(self).proc_view(),
                j,
                rest,
                reg@,
                r,
            ),
    {
        let ghost pv = self.proc_view();
        match self.proc_target(path) {
            None => {
                self.flush(path)
            },
            Some((j, rest)) => {
                proof {
                    assert(pv[j as int] == (self.procs@[j as int].point@, self.procs@[j as int].fs.view()));
                    assert(proc_wf(pv[j as int].1));
                }
                let r = self.procs[j].fs.flush(rest, reg);
                proof {
                    let f = self.procs@[j as int].fs.view();
                    let items = choose|items: Seq<(Seq<char>, u64)>|
                        enumerates(items, reg@) && f == #[trigger] proc_flush_spec(pv[j as int].1, rest@, items).0
                            && match r {
                            Ok(()) => proc_flush_spec(pv[j as int].1, rest@, items).1 is Ok,
                            Err(e) => proc_flush_spec(pv[j as int].1, rest@, items).1 == Err::<(), FSErrorKind>(e.kind_of()),
                        };
                    let t = pv.update(j as int, (pv[j as int].0, f));
                    assert(self.proc_view() =~= t) by {
                        assert forall|k: int| 0 <= k < t.len() implies #[trigger] self.proc_view()[k] == t[k] by {
                            if k == j {
                                assert(self.proc_view()[k] == (self.procs@[k].point@, self.procs@[k].fs.view()));
                            }
                        }
                    }
                    assert forall|k: int| 0 <= k < t.len() implies proc_wf(#[trigger] t[k].1) by {
                        if k != j {
                            assert(t[k] == pv[k]);
                        }
                    }
                    assert(self.proc_view()[j as int].1 == proc_flush_spec(pv[j as int].1, rest@, items).0);
                    assert(flush_agrees(r, proc_flush_spec(pv[j as int].1, rest@, items).1));
                    assert forall|k: int| 0 <= k < pv.len() && k != j implies #[trigger] self.proc_view()[k] == pv[k] by {
                        assert(t[k] == pv[k]);
                    }
                    assert(proc_flushed(pv, self.proc_view(), j as int, rest@, reg@, r));
                }
                r
            },
        }
    }

    /// Writes the mount points, read at `offset`, to the front of `buf`,
    /// each followed by a tab; returns how many bytes were written and
    /// whether the list was read to its end.
    pub fn buffered_display(&self, buf: &mut [u8], offset: usize) -> (r: (usize, bool))
        ensures
            final(buf)@.len() == old(buf)@.len(),
            r.0 <= old(buf)@.len(),
            final(buf)@.take(r.0 as int) == dir_display(points_of(self.view()), offset as int, old(buf)@.len() as int).0,
            final(buf)@.skip(r.0 as int) == old(buf)@.skip(r.0 as int),
            r.1 == dir_display(points_of(self.view()), offset as int, old(buf)@.len() as int).1,
    {
        let ghost orig = buf@;
        let ghost names = points_of(self.view());
        let n = self.mounts.len();
        let cap = buf.len();
        let mut to_skip = offset;
        let mut newly: usize = 0;
        let mut i: usize = 0;
        proof {
            assert(orig.take(0) =~= Seq::<u8>::empty());
        }
        while i < n
            invariant
                orig == old(buf)@,
                names == points_of(self.view()),
                n == names.len(),
                i <= n,
                cap == orig.len(),
                buf@.len() == cap,
                newly <= cap,
                crate::ramfs::dir_display_from(names, i as int, to_skip as int, buf@.take(newly as int), cap as int)
                    == dir_display(names, offset as int, cap as int),
                buf@.skip(newly as int) == orig.skip(newly as int),
            decreases n - i,
        {
            let bytes = self.mounts[i].point.as_str().as_bytes();
            proof {
                assert(names[i as int] == self.mounts@[i as int].point@);
            }
            if to_skip > 0 {
                to_skip = skip_entry(to_skip, bytes.len());
            } else {
                if bytes.len() >= cap - newly {
                    return (newly, false);
                }
                let ghost b0 = buf@;
                put_entry(buf, newly, bytes);
                proof {
                    lemma_skip_more(b0, orig, newly as int, newly + bytes@.len() + 1);
                }
                newly = newly + bytes.len() + 1;
            }
            i = i + 1;
        }
        (newly, true)
    }

    /// Reads the list of mount points at `offset`; reading when nothing is
    /// left fails with `UnexpectedEOF`.
    pub fn read(&self, buf: &mut [u8], offset: usize) -> (r: FSResult<usize>)
        ensures
            final(buf)@.len() == old(buf)@.len(),
            final(buf)@.take(dir_display(points_of(self.view()), offset as int, old(buf)@.len() as int).0.len() as int)
                == dir_display(points_of(self.view()), offset as int, old(buf)@.len() as int).0,
            final(buf)@.skip(dir_display(points_of(self.view()), offset as int, old(buf)@.len() as int).0.len() as int)
                == old(buf)@.skip(dir_display(points_of(self.view()), offset as int, old(buf)@.len() as int).0.len() as int),
            ({
                let (bytes, done) = dir_display(points_of(self.view()), offset as int, old(buf)@.len() as int);
                if bytes.len() == 0 && done {
                    r matches Err(e) && e.kind_of() == FSErrorKind::UnexpectedEOF
                } else {
                    r == Ok::<usize, FSError>(bytes.len() as usize)
                }
            }),
    {
        let (n_read, at_end) = self.buffered_display(buf, offset);
        if n_read == 0 && at_end {
            Err(FSError::simple(FSErrorKind::UnexpectedEOF))
        } else {
            Ok(n_read)
        }
    }

    /// The table cannot be written to.
    pub fn write(&self, buf: &[u8], offset: usize) -> (r: FSResult<usize>)
        ensures
            r matches Err(e) && e.kind_of() == FSErrorKind::NotSupported,
    {
        Err(FSError::simple(FSErrorKind::NotSupported))
    }

    /// The status of the table: all zero.
    pub fn fstat(&self) -> (r: FStat)
        ensures
            r.t_create == 0 && r.t_mod == 0 && r.size == 0,
    {
        FStat { t_create: 0, t_mod: 0, size: 0 }
    }

    /// The table is a mount.
    pub fn node_type(&self) -> (r: NodeType)
        ensures
            r == NodeType::Mount,
    {
        NodeType::Mount
    }

    /// The full listing of the table: a header line, then every mount point
    /// followed by a tab, appended to `buf`.
    pub fn read_to_end(&self, buf: &mut Vec<u8>, offset: usize) -> (r: FSResult<usize>)
        ensures
            r == Ok::<usize, FSError>((encode_utf8(VFS_LISTING_HEADER@) + listing_from(points_of(self.view()), 0)).len() as usize),
            final(buf)@ == old(buf)@ + encode_utf8(VFS_LISTING_HEADER@) + listing_from(points_of(self.view()), 0),
    {
        let ghost names = points_of(self.view());
        let mut out: Vec<u8> = Vec::new();
        let header = VFS_LISTING_HEADER.as_bytes();
        append_bytes(&mut out, header, 0);
        let ghost head = out@;
        proof {
            assert(header@.skip(0) =~= encode_utf8(VFS_LISTING_HEADER@));
            assert(head =~= encode_utf8(VFS_LISTING_HEADER@));
        }
        let n = self.mounts.len();
        let mut i: usize = 0;
        while i < n
            invariant
                names == points_of(self.view()),
                n == names.len(),
                i <= n,
                out@ == head + listing_upto(names, i as int),
            decreases n - i,
        {
            let bytes = self.mounts[i].point.as_str().as_bytes();
            append_bytes(&mut out, bytes, 0);
            out.push(9u8);
            proof {
                assert(names[i as int] == self.mounts@[i as int].point@);
                assert(bytes@.skip(0) =~= bytes@);
                assert(out@ =~= head + listing_upto(names, i + 1));
            }
            i = i + 1;
        }
        proof {
            lemma_listing_split(names, n as int);
            assert(listing_from(names, n as int) =~= Seq::<u8>::empty());
            assert(listing_upto(names, n as int) + Seq::<u8>::empty() =~= listing_upto(names, n as int));
        }
        let total = out.len();
        append_bytes(buf, out.as_slice(), 0);
        proof {
            assert(out@.skip(0) =~= out@);
        }
        Ok(total)
    }

    /// Writes to node `n` of the file system mounted at position `i`.
    fn write_in(&mut self, i: usize, n: usize, buf: &[u8], offset: usize, now: u64) -> (r: FSResult<usize>)
        requires
            old(self).wf(),
            i < old(self).view().len(),
            n < old(self).view()[i as int].1.len(),
            old(self).view()[i as int].1[n as int].node is File ==> offset + buf@.len() <= usize::MAX,
        ensures
            final(self).wf(),
            final(self).view() == old(self).view().update(
                i as int,
                (old(self).view()[i as int].0, write_spec(old(self).view()[i as int].1, n as int, buf@, offset as int, now).0),
            ),
            write_agrees(r, write_spec(old(self).view()[i as int].1, n as int, buf@, offset as int, now).1),
    {
        let ghost v = self.view();
        let r = self.mounts[i].fs.write(n, buf, offset, now);
        proof {
            let t = v.update(i as int, (v[i as int].0, write_spec(v[i as int].1, n as int, buf@, offset as int, now).0));
            assert(self.view() =~= t) by {
                assert forall|j: int| 0 <= j < t.len() implies #[trigger] self.view()[j] == t[j] by {
                    if j == i {
                        assert(self.view()[j] == (self.mounts@[j].point@, self.mounts@[j].fs.view()));
                    }
                }
            }
            assert forall|a: int, b: int| 0 <= a < b < t.len() implies seq_less(#[trigger] t[a].0, #[trigger] t[b].0) by {
                assert(t[a].0 == v[a].0 && t[b].0 == v[b].0);
            }
            assert forall|a: int| 0 <= a < t.len() implies fs_wf(#[trigger] t[a].1) by {
                if a != i {
                    assert(t[a] == v[a]);
                }
            }
        }
        r
    }
}


impl VfsFile {
    /// Reads at `offset` into the front of `buf`, if the handle may read.
    pub fn read(&self, vfs: &VFS, buf: &mut [u8], offset: usize) -> (r: FSResult<usize>)
        requires
            handle_in(vfs.view(), self.mount, self.file.node),
        ensures
            read_agrees(
                r,
                old(buf)@,
                final(buf)@,
                vfs_read_spec(vfs.view(), self.mount, self.file.node, self.file.perms@, offset as int, old(buf)@.len() as int),
            ),
    {
        match self.mount {
            Some(i) => {
                let fs = vfs.mounted(i);
                assert(fs.view() == vfs.view()[i as int].1);
                self.file.read(fs, buf, offset)
            },
            None => {
                if !self.file.may_read() {
                    return Err(FSError::simple(FSErrorKind::PermissionDenied));
                }
                let ghost before = buf@;
                let r = vfs.read(buf, offset);
                proof {
                    let (bytes, done) = dir_display(points_of(vfs.view()), offset as int, before.len() as int);
                    if bytes.len() == 0 && done {
                        assert(buf@.take(0) =~= Seq::<u8>::empty());
                        assert(buf@.skip(0) =~= buf@);
                        assert(before.skip(0) =~= before);
                    }
                }
                r
            },
        }
    }

    /// Writes `buf` at `offset`, if the handle may write.
    pub fn write(&self, vfs: &mut VFS, buf: &[u8], offset: usize, now: u64) -> (r: FSResult<usize>)
        requires
            old(vfs).wf(),
            handle_in(old(vfs).view(), self.mount, self.file.node),
            write_fits(old(vfs).view(), self.mount, self.file.node, offset as int, buf@.len() as int),
        ensures
            final(vfs).wf(),
            final(vfs).view() == vfs_write_spec(old(vfs).view(), self.mount, self.file.node, self.file.perms@, buf@, offset as int, now).0,
            write_agrees(r, vfs_write_spec(old(vfs).view(), self.mount, self.file.node, self.file.perms@, buf@, offset as int, now).1),
    {
        if !self.file.may_write() {
            return Err(FSError::simple(FSErrorKind::PermissionDenied));
        }
        match self.mount {
            Some(i) => vfs.write_in(i, self.file.node, buf, offset, now),
            None => vfs.write(buf, offset),
        }
    }

    /// Reads at the cursor and moves the cursor past what was read.
    pub fn read_continuous(&mut self, vfs: &VFS, buf: &mut [u8]) -> (r: FSResult<usize>)
        requires
            handle_in(vfs.view(), old(self).mount, old(self).file.node),
        ensures
            read_agrees(
                r,
                old(buf)@,
                final(buf)@,
                vfs_read_spec(vfs.view(), old(self).mount, old(self).file.node, old(self).file.perms@, old(self).file.cursor@ as int, old(buf)@.len() as int),
            ),
            final(self).file.cursor@ == cursor_after(old(self).file.cursor@, r),
            final(self).mount == old(self).mount,
            final(self).file.node == old(self).file.node,
            final(self).file.perms == old(self).file.perms,
            final(self).file.path == old(self).file.path,
    {
        let n = self.read(vfs, buf, self.file.cursor.get())?;
        self.file.cursor.advance(n);
        Ok(n)
    }

    /// Writes at the cursor and moves the cursor past what was written.
    pub fn write_continuous(&mut self, vfs: &mut VFS, buf: &[u8], now: u64) -> (r: FSResult<usize>)
        requires
            old(vfs).wf(),
            handle_in(old(vfs).view(), old(self).mount, old(self).file.node),
            write_fits(old(vfs).view(), old(self).mount, old(self).file.node, old(self).file.cursor@ as int, buf@.len() as int),
        ensures
            final(vfs).wf(),
            final(vfs).view() == vfs_write_spec(old(vfs).view(), old(self).mount, old(self).file.node, old(self).file.perms@, buf@, old(self).file.cursor@ as int, now).0,
            write_agrees(r, vfs_write_spec(old(vfs).view(), old(self).mount, old(self).file.node, old(self).file.perms@, buf@, old(self).file.cursor@ as int, now).1),
            final(self).file.cursor@ == cursor_after(old(self).file.cursor@, r),
            final(self).mount == old(self).mount,
            final(self).file.node == old(self).file.node,
            final(self).file.perms == old(self).file.perms,
            final(self).file.path == old(self).file.path,
    {
        let n = self.write(vfs, buf, self.file.cursor.get(), now)?;
        self.file.cursor.advance(n);
        Ok(n)
    }

    /// Writes all of `buf` at `offset`, in as many writes as it takes; a
    /// write that takes nothing fails with `Other`. Nothing is written for
    /// an empty `buf`.
    pub fn write_all(&self, vfs: &mut VFS, buf: &[u8], offset: usize, now: u64) -> (r: FSResult<()>)
        requires
            old(vfs).wf(),
            handle_in(old(vfs).view(), self.mount, self.file.node),
            offset + buf@.len() <= usize::MAX,
        ensures
            final(vfs).wf(),
            buf@.len() == 0 ==> r is Ok && final(vfs).view() == old(vfs).view(),
            buf@.len() > 0 ==> final(vfs).view() == vfs_write_spec(old(vfs).view(), self.mount, self.file.node, self.file.perms@, buf@, offset as int, now).0
                && match r {
                    Ok(()) => vfs_write_spec(old(vfs).view(), self.mount, self.file.node, self.file.perms@, buf@, offset as int, now).1 is Ok,
                    Err(e) => vfs_write_spec(old(vfs).view(), self.mount, self.file.node, self.file.perms@, buf@, offset as int, now).1
                        == Err::<usize, FSErrorKind>(e.kind_of()),
                },
    {
        let ghost v0 = vfs.view();
        let ghost target = vfs_write_spec(v0, self.mount, self.file.node, self.file.perms@, buf@, offset as int, now);
        let mut rest = buf;
        let mut at = offset;
        while rest.len() > 0
            invariant
                v0 == old(vfs).view(),
                target == vfs_write_spec(v0, self.mount, self.file.node, self.file.perms@, buf@, offset as int, now),
                vfs.wf(),
                (rest@ == buf@ && at == offset && vfs.view() == v0) || (rest@.len() == 0 && buf@.len() > 0
                    && vfs.view() == target.0 && target.1 is Ok),
                handle_in(v0, self.mount, self.file.node),
                offset + buf@.len() <= usize::MAX,
            decreases rest@.len(),
        {
            match self.write(vfs, rest, at, now) {
                Ok(0) => {
                    return Err(FSError::simple(FSErrorKind::Other));
                },
                Ok(n) => {
                    rest = vstd::slice::slice_subrange(rest, n, rest.len());
                    at = at + n;
                },
                Err(e) => {
                    return Err(e);
                },
            }
        }
        Ok(())
    }

    /// Moves the cursor to `offset`.
    pub fn set_cursor(&mut self, offset: usize)
        ensures
            final(self).file.cursor@ == offset,
            final(self).mount == old(self).mount,
            final(self).file.node == old(self).file.node,
            final(self).file.perms == old(self).file.perms,
            final(self).file.path == old(self).file.path,
    {
        self.file.set_cursor(offset);
    }

    /// Reads to the end from `offset` on; see `RamFS::read_to_end` and
    /// `VFS::read_to_end`. This needs no permission.
    pub fn read_to_end(&self, vfs: &VFS, buf: &mut Vec<u8>, offset: usize) -> (r: FSResult<usize>)
        requires
            handle_in(vfs.view(), self.mount, self.file.node),
            files_bounded(vfs.view()),
        ensures
            match self.mount {
                Some(i) => match r {
                    Ok(k) => !read_to_end_fails(vfs.view()[i as int].1[self.file.node as int], offset as int)
                        && read_to_end_ok(vfs.view()[i as int].1[self.file.node as int], offset as int, old(buf)@, final(buf)@, k as int),
                    Err(e) => read_to_end_fails(vfs.view()[i as int].1[self.file.node as int], offset as int)
                        && e.kind_of() == FSErrorKind::UnexpectedEOF && final(buf)@ == old(buf)@,
                },
                None => r == Ok::<usize, FSError>((encode_utf8(VFS_LISTING_HEADER@) + listing_from(points_of(vfs.view()), 0)).len() as usize)
                    && final(buf)@ == old(buf)@ + encode_utf8(VFS_LISTING_HEADER@) + listing_from(points_of(vfs.view()), 0),
            },
    {
        match self.mount {
            Some(i) => {
                proof {
                    assert(vfs.view()[i as int].1[self.file.node as int] == vfs.view()[i as int].1[self.file.node as int]);
                }
                vfs.mounted(i).read_to_end(self.file.node, buf, offset)
            },
            None => vfs.read_to_end(buf, offset),
        }
    }

    /// Reads everything from the start as text and appends it to `buf`:
    /// bytes that are not valid UTF-8 fail with `Other`. The offset is not
    /// used; reading always starts at zero.
    pub fn read_to_string(&self, vfs: &VFS, buf: &mut String, offset: usize) -> (r: FSResult<usize>)
        requires
            handle_in(vfs.view(), self.mount, self.file.node),
            files_bounded(vfs.view()),
        ensures
            match r {
                Ok(k) => final(buf)@ == old(buf)@ + decode_utf8(handle_text(vfs.view(), self.mount, self.file.node))
                    && k == handle_text(vfs.view(), self.mount, self.file.node).len()
                    && valid_utf8(handle_text(vfs.view(), self.mount, self.file.node)),
                Err(e) => final(buf)@ == old(buf)@ && e.kind_of() == FSErrorKind::Other
                    && !valid_utf8(handle_text(vfs.view(), self.mount, self.file.node)),
            },
    {
        let mut all: Vec<u8> = Vec::new();
        let count = self.read_to_end(vfs, &mut all, 0)?;
        let total = all.len();
        proof {
            match self.mount {
                Some(i) => {
                    let f = vfs.view()[i as int].1[self.file.node as int];
                    match f.node {
                        NodeView::File(d) => {
                            assert(d.skip(0) =~= d);
                        },
                        NodeView::Link(t) => {
                            assert(encode_utf8(t).skip(0) =~= encode_utf8(t));
                            assert(all@ =~= encode_utf8(t));
                            assert(all@.take(count as int) =~= all@);
                        },
                        NodeView::Dir(e) => {
                            assert(all@ =~= listing_from(crate::ramfs::names_of(e), 0));
                            assert(all@.take(count as int) =~= all@);
                        },
                    }
                },
                None => {
                    assert(all@ =~= encode_utf8(VFS_LISTING_HEADER@) + listing_from(points_of(vfs.view()), 0));
                    assert(all@.take(count as int) =~= all@);
                },
            }
            assert(all@.take(count as int) == handle_text(vfs.view(), self.mount, self.file.node));
        }
        let text = crate::ramfs::text_prefix(&all, count);
        match text {
            None => Err(FSError::simple(FSErrorKind::Other)),
            Some(t) => {
                buf.append(t);
                Ok(count)
            },
        }
    }

    /// Everything from the start, as text.
    pub fn read_all_as_str(&self, vfs: &VFS) -> (r: FSResult<String>)
        requires
            handle_in(vfs.view(), self.mount, self.file.node),
            files_bounded(vfs.view()),
        ensures
            match r {
                Ok(s) => valid_utf8(handle_text(vfs.view(), self.mount, self.file.node))
                    && s@ == decode_utf8(handle_text(vfs.view(), self.mount, self.file.node)),
                Err(e) => e.kind_of() == FSErrorKind::Other && !valid_utf8(handle_text(vfs.view(), self.mount, self.file.node)),
            },
    {
        let mut s = String::new();
        self.read_to_string(vfs, &mut s, 0)?;
        proof {
            assert(Seq::<char>::empty() + decode_utf8(handle_text(vfs.view(), self.mount, self.file.node))
                =~= decode_utf8(handle_text(vfs.view(), self.mount, self.file.node)));
        }
        Ok(s)
    }
}

/// The bytes a handle reads from the start to the end: a file's bytes, a
/// link's target, a directory's listing, or the table's full listing.
pub open spec fn handle_text(v: Seq<(Seq<char>, Seq<FileView>)>, mount: Option<usize>, node: usize) -> Seq<u8> {
    match mount {
        Some(i) => match v[i as int].1[node as int].node {
            NodeView::File(d) => d,
            NodeView::Link(t) => encode_utf8(t),
            NodeView::Dir(e) => listing_from(crate::ramfs::names_of(e), 0),
        },
        None => encode_utf8(VFS_LISTING_HEADER@) + listing_from(points_of(v), 0),
    }
}

/// The first mount carrying `point` is the one `mount_index` names.
proof fn lemma_first_match<F>(v: Seq<(Seq<char>, F)>, point: Seq<char>, i: int)
    requires
        0 <= i < v.len(),
        v[i].0 == point,
        forall|j: int| 0 <= j < i ==> #[trigger] v[j].0 != point,
    ensures
        mount_index(v, point) == i,
    decreases i,
{
    if i > 0 {
        assert forall|j: int| 0 <= j < i - 1 implies #[trigger] v.drop_first()[j].0 != point by {
            assert(v.drop_first()[j] == v[j + 1]);
        }
        lemma_first_match(v.drop_first(), point, i - 1);
    }
}

/// Mounting at a free point and then unmounting that point gives back the
/// file system that was mounted and leaves the table as it was.
pub proof fn law_mount_unmount(v: Seq<(Seq<char>, Seq<FileView>)>, point: Seq<char>, f: Seq<FileView>)
    requires
        vfs_wf(v),
        fs_wf(f),
        mount_index(v, point) < 0,
    ensures
        mount_spec(v, point, f).1 is Ok,
        unmount_spec(mount_spec(v, point, f).0, point) == (v, Ok::<Seq<FileView>, FSErrorKind>(f)),
{
    let k = insert_pos(v, point);
    lemma_insert_pos(v, point);
    let w = v.insert(k, (point, f));
    lemma_insert_sorted(v, point, f);
    lemma_mount_index_unique(w, point, k);
    assert(w.remove(k) =~= v);
}

/// Mounting at a point that is taken fails, and the point then carries the
/// new file system.
pub proof fn law_mount_taken(v: Seq<(Seq<char>, Seq<FileView>)>, point: Seq<char>, f: Seq<FileView>)
    requires
        vfs_wf(v),
        mount_index(v, point) >= 0,
    ensures
        mount_spec(v, point, f).1 == Err::<(), FSErrorKind>(FSErrorKind::AlreadyExists),
        mount_spec(v, point, f).0[mount_index(v, point)] == (point, f),
        mount_spec(v, point, f).0.len() == v.len(),
{
    lemma_mount_index(v, point);
}

/// The mount a path resolves to is the one at its own mount point.
proof fn lemma_deepest_own_point(v: Seq<(Seq<char>, Seq<FileView>)>, path: Seq<char>, a: Seq<char>)
    ensures
        deepest_from(v, path, a) matches Some((i, _)) ==> 0 <= i < v.len() && mount_index(v, v[i].0) == i,
    decreases a.len(),
{
    lemma_mount_index(v, a);
    if mount_index(v, a) < 0 {
        if let Some(q) = path_parent(a) {
            if q.len() < a.len() {
                lemma_deepest_own_point(v, path, q);
            }
        }
    }
}

/// Law: unmounting a mount point takes it out of the table: unmounting it
/// again fails with `NotFound` (no process file system is mounted there
/// either, so `fs_util::unmount` fails too), and no path is served by a
/// mount there any more (a path with no other mount above it is served by
/// none).
pub proof fn law_unmount_twice(v: Seq<(Seq<char>, Seq<FileView>)>, pv: Seq<(Seq<char>, Seq<ProcView>)>, point: Seq<char>)
    requires
        vfs_wf(v),
        tables_disjoint(v, pv),
        mount_index(v, point) >= 0,
    ensures
        mount_index(pv, point) < 0,
        unmount_spec(v, point).1 is Ok,
        mount_index(unmount_spec(v, point).0, point) < 0,
        unmount_spec(unmount_spec(v, point).0, point) == (unmount_spec(v, point).0, Err::<Seq<FileView>, FSErrorKind>(
            FSErrorKind::NotFound,
        )),
        forall|path: Seq<char>|
            #[trigger] deepest_mount(unmount_spec(v, point).0, path) matches Some((i, _))
                ==> unmount_spec(v, point).0[i].0 != point,
{
    let k = mount_index(v, point);
    lemma_mount_index(v, point);
    lemma_mount_index(pv, point);
    if mount_index(pv, point) >= 0 {
        assert(v[k].0 != pv[mount_index(pv, point)].0);
    }
    let w = v.remove(k);
    lemma_mount_index(w, point);
    if mount_index(w, point) >= 0 {
        let m = mount_index(w, point);
        let m2 = if m < k { m } else { m + 1 };
        assert(w[m] == v[m2]);
        lemma_mount_index_unique(v, point, m2);
    }
    assert forall|path: Seq<char>|
        #[trigger] deepest_mount(w, path) matches Some((i, _)) ==> w[i].0 != point by {
        lemma_deepest_own_point(w, path, path);
    }
}

/// Law: a path whose open gives a link opens, following it, the node its
/// target opens: the same mount, node, permissions and cursor, and the same
/// table afterwards, the handle carrying the target as its path. So what is
/// written through a handle on the link is read through one on the target,
/// and the other way round.
pub proof fn law_link_leads_to_target(
    v: Seq<(Seq<char>, Seq<FileView>)>,
    path: Seq<char>,
    t: Seq<char>,
    options: u32,
    now: u64,
    fuel: nat,
)
    requires
        open_once(v, path, options, now).1 == Ok::<OpenStep, FSErrorKind>(OpenStep::Link(t)),
    ensures
        open_follow(v, path, options, now, fuel + 1).0 == open_follow(open_once(v, path, options, now).0, t, options, now, fuel).0,
        open_follow(open_once(v, path, options, now).0, t, options, now, fuel).1 matches Some(Ok(h)) ==> open_follow(
            v,
            path,
            options,
            now,
            fuel + 1,
        ).1 == Some(Ok::<HandleView, FSErrorKind>(
            HandleView { mount: h.mount, node: h.node, perms: h.perms, cursor: h.cursor, path: Some(t) },
        )),
{
}

/// A parent is a shorter prefix.
proof fn lemma_parent_prefix(a: Seq<char>)
    ensures
        path_parent(a) matches Some(q) ==> q.len() < a.len() && q.is_prefix_of(a),
{
    lemma_last_index_of(a, sep());
}

/// The mount a path lies under is one of the table's.
proof fn lemma_deepest_bound(v: Seq<(Seq<char>, Seq<FileView>)>, path: Seq<char>, a: Seq<char>)
    ensures
        deepest_from(v, path, a) matches Some((i, _)) ==> 0 <= i < v.len(),
    decreases a.len(),
{
    lemma_mount_index(v, a);
    if mount_index(v, a) < 0 {
        if let Some(q) = path_parent(a) {
            if q.len() < a.len() {
                lemma_deepest_bound(v, path, q);
            }
        }
    }
}

/// Opening with neither a creating flag nor write-and-truncate together,
/// through the table and its links, leaves every mounted file system as it was.
pub proof fn law_plain_open_keeps_table(
    v: Seq<(Seq<char>, Seq<FileView>)>,
    path: Seq<char>,
    options: u32,
    now: u64,
    fuel: nat,
)
    requires
        options & 240 == 0,
        options & 10 != 10,
    ensures
        open_follow(v, path, options, now, fuel).0 == v,
    decreases fuel,
{
    if fuel > 0 {
        match deepest_mount(v, path) {
            None => {},
            Some((i, rest)) => {
                lemma_deepest_bound(v, path, path);
                crate::ramfs::law_plain_open_keeps(v[i].1, rest, options, now);
                assert(v.update(i, (v[i].0, v[i].1)) =~= v);
            },
        }
        let (v1, r) = open_once(v, path, options, now);
        if let Ok(OpenStep::Link(t)) = r {
            law_plain_open_keeps_table(v1, t, options, now, (fuel - 1) as nat);
        }
    }
}


/// The path `m/d` of an entry `d` (without `/`) right below the point `m`:
/// its parent is `m`, its last component `d`, and below `m` it reads `/d`,
/// whose parent is the empty path.
proof fn lemma_child_path(m: Seq<char>, d: Seq<char>)
    requires
        lacks(d, sep()),
        d.len() > 0,
    ensures
        path_parent(m.push(sep()) + d) == Some(m),
        path_file(m.push(sep()) + d) == d,
        m.len() < (m.push(sep()) + d).len(),
        (m.push(sep()) + d).skip(m.len() as int) == Seq::<char>::empty().push(sep()) + d,
        path_parent(Seq::<char>::empty().push(sep()) + d) == Some(Seq::<char>::empty()),
        path_file(Seq::<char>::empty().push(sep()) + d) == d,
        !ends_with_sep(Seq::<char>::empty().push(sep()) + d),
        Seq::<char>::empty().push(sep()) + d != seq![sep()],
        m.push(sep()) + d != seq![sep()],
        path_parent(Seq::<char>::empty()) is None,
{
    lemma_last_index_of_join(m, sep(), d);
    lemma_last_index_of_join(Seq::<char>::empty(), sep(), d);
    assert((m.push(sep()) + d).skip(m.len() as int) =~= Seq::<char>::empty().push(sep()) + d);
    let r = Seq::<char>::empty().push(sep()) + d;
    assert(r.last() == d.last());
    assert(r.len() != 1);
    assert((m.push(sep()) + d).len() != 1);
    assert(rsplit_once(Seq::<char>::empty(), sep()) is None);
}

/// Tables with the same mount points find a point at the same place.
proof fn lemma_mount_index_same_points<F, G>(v: Seq<(Seq<char>, F)>, w: Seq<(Seq<char>, G)>, p: Seq<char>)
    requires
        v.len() == w.len(),
        forall|k: int| 0 <= k < v.len() ==> #[trigger] v[k].0 == w[k].0,
    ensures
        mount_index(v, p) == mount_index(w, p),
    decreases v.len(),
{
    if v.len() > 0 {
        assert(v[0].0 == w[0].0);
        assert forall|k: int| 0 <= k < v.drop_first().len() implies #[trigger] v.drop_first()[k].0 == w.drop_first()[k].0 by {
            assert(v[k + 1].0 == w[k + 1].0);
        }
        lemma_mount_index_same_points(v.drop_first(), w.drop_first(), p);
    }
}

/// The entry `m/d` right below the mount at `m` (no mount being at `m/d`
/// itself) lies in that mount, as `/d`.
proof fn lemma_deepest_child(v: Seq<(Seq<char>, Seq<FileView>)>, i: int, m: Seq<char>, d: Seq<char>)
    requires
        0 <= i < v.len(),
        mount_index(v, m) == i,
        mount_index(v, m.push(sep()) + d) < 0,
        lacks(d, sep()),
        d.len() > 0,
    ensures
        deepest_mount(v, m.push(sep()) + d) == Some((i, Seq::<char>::empty().push(sep()) + d)),
{
    lemma_child_path(m, d);
    let path = m.push(sep()) + d;
    assert(deepest_from(v, path, m) == Some((i, path.skip(m.len() as int))));
}

/// Opening a path that is no link gives, links followed, what one open
/// gives.
proof fn lemma_open_single(v: Seq<(Seq<char>, Seq<FileView>)>, p: Seq<char>, o: u32, now: u64)
    requires
        !(open_once(v, p, o, now).1 matches Ok(OpenStep::Link(_))),
    ensures
        open_ends(v, p, o, now),
        vfs_open_spec(v, p, o, now) == (open_once(v, p, o, now).0, match open_once(v, p, o, now).1 {
            Ok(OpenStep::Done(h)) => Ok::<HandleView, FSErrorKind>(h),
            Ok(OpenStep::Link(_)) => Err::<HandleView, FSErrorKind>(FSErrorKind::Other),
            Err(e) => Err::<HandleView, FSErrorKind>(e),
        }),
{
    assert(open_follow(v, p, o, now, 1).1 is Some);
    let f = open_fuel(v, p, o, now);
    assert(open_follow(v, p, o, now, f).1 is Some);
    assert(f >= 1);
}

/// Opening `/d` in a file system opens `d` in its root directory.
proof fn lemma_open_top(fs: Seq<FileView>, d: Seq<char>, o: u32, now: u64)
    requires
        lacks(d, sep()),
        d.len() > 0,
    ensures
        open_spec(fs, Seq::<char>::empty().push(sep()) + d, o, now) == open_in_dir(
            fs,
            0,
            Seq::<char>::empty().push(sep()) + d,
            o,
            now,
        ),
        unlink_spec(fs, Seq::<char>::empty().push(sep()) + d, o) == unlink_in_dir(
            fs,
            0,
            Seq::<char>::empty().push(sep()) + d,
            o,
        ),
{
    lemma_child_path(Seq::<char>::empty(), d);
    assert(traverse_spec(fs, Seq::<char>::empty(), o & 64 == 64, now) == (fs, Ok::<int, FSErrorKind>(0)));
    assert(traverse_spec(fs, Seq::<char>::empty(), false, 0) == (fs, Ok::<int, FSErrorKind>(0)));
}


/// An open gave a handle on node `n` of the mount at position `i`.
pub open spec fn opened_at(r: Result<HandleView, FSErrorKind>, i: int, n: int) -> bool {
    match r {
        Ok(h) => h.mount == Some(i) && h.node == n,
        Err(_) => false,
    }
}

/// The bits of the options these laws open with.
proof fn lemma_option_bits()
    ensures
        32u32 & 240u32 != 0u32,
        32u32 & 32u32 == 32u32,
        #[verifier::truncate] ((32u32 & 15u32) as u8) == 0u8,
        32u32 & 1u32 != 1u32,
        32u32 & 2u32 != 2u32,
        32u32 & 512u32 != 512u32,
        1u32 & 240u32 == 0u32,
        1u32 & 32u32 != 32u32,
        1u32 & 128u32 != 128u32,
        1u32 & 80u32 == 0u32,
        1u32 & 256u32 != 256u32,
        1u32 & 1u32 == 1u32,
        1u32 & 2u32 != 2u32,
        1u32 & 512u32 != 512u32,
        1u32 & 64u32 != 64u32,
        32u32 & 64u32 != 64u32,
        #[verifier::truncate] ((1u32 & 15u32) as u8) == 1u8,
        0u8 & 4u8 != 4u8,
        0u8 & 10u8 != 10u8,
        1u8 & 4u8 != 4u8,
        1u8 & 10u8 != 10u8,
        7u8 & 1u8 == 1u8,
        7u8 & 2u8 == 2u8,
        7u8 & 4u8 == 4u8,
{
    assert(32u32 & 240u32 != 0u32) by (bit_vector);
    assert(32u32 & 32u32 == 32u32) by (bit_vector);
    assert(#[verifier::truncate] ((32u32 & 15u32) as u8) == 0u8) by (bit_vector);
    assert(32u32 & 1u32 != 1u32 && 32u32 & 2u32 != 2u32 && 32u32 & 512u32 != 512u32) by (bit_vector);
    assert(1u32 & 240u32 == 0u32 && 1u32 & 32u32 != 32u32 && 1u32 & 128u32 != 128u32 && 1u32 & 80u32 == 0u32)
        by (bit_vector);
    assert(1u32 & 256u32 != 256u32 && 1u32 & 1u32 == 1u32 && 1u32 & 2u32 != 2u32 && 1u32 & 512u32 != 512u32)
        by (bit_vector);
    assert(1u32 & 64u32 != 64u32 && 32u32 & 64u32 != 64u32) by (bit_vector);
    assert(#[verifier::truncate] ((1u32 & 15u32) as u8) == 1u8) by (bit_vector);
    assert(0u8 & 4u8 != 4u8 && 0u8 & 10u8 != 10u8 && 1u8 & 4u8 != 4u8 && 1u8 & 10u8 != 10u8) by (bit_vector);
    assert(7u8 & 1u8 == 1u8 && 7u8 & 2u8 == 2u8 && 7u8 & 4u8 == 4u8) by (bit_vector);
}

/// Law: making the directory `m/d`, where `d` is a name that the root of
/// the in-memory file system mounted at `m` does not hold (that root being
/// writable and searchable), succeeds and files a new directory there,
/// changing nothing else; opening `m/d` to list it gives that directory,
/// whose listing is empty; opening `m` to list it gives the root, whose
/// listing gains `d` and a tab at its end; making `m/d` again changes
/// nothing and gives the same directory.
pub proof fn law_mkdir_then_lsdir(
    v: Seq<(Seq<char>, Seq<FileView>)>,
    i: int,
    m: Seq<char>,
    d: Seq<char>,
    now: u64,
    later: u64,
)
    requires
        vfs_wf(v),
        0 <= i < v.len() <= usize::MAX,
        v[i].0 == m,
        m != seq![sep()],
        lacks(d, sep()),
        d.len() > 0,
        mount_index(v, m.push(sep()) + d) < 0,
        perm_w(v[i].1[0].perms),
        perm_x(v[i].1[0].perms),
        lookup(entries_of(v[i].1[0]), d) is None,
    ensures
        opened_at(vfs_open_spec(v, m.push(sep()) + d, 32, now).1, i, v[i].1.len() as int),
        vfs_open_spec(v, m.push(sep()) + d, 32, now).0 == v.update(i, (m, ensure(v[i].1, 0, d, fresh_dir(now)).0)),
        vfs_open_spec(vfs_open_spec(v, m.push(sep()) + d, 32, now).0, m.push(sep()) + d, 1, later).0
            == vfs_open_spec(v, m.push(sep()) + d, 32, now).0,
        opened_at(
            vfs_open_spec(vfs_open_spec(v, m.push(sep()) + d, 32, now).0, m.push(sep()) + d, 1, later).1,
            i,
            v[i].1.len() as int,
        ),
        handle_text(vfs_open_spec(v, m.push(sep()) + d, 32, now).0, Some(i as usize), v[i].1.len() as usize)
            == Seq::<u8>::empty(),
        vfs_open_spec(vfs_open_spec(v, m.push(sep()) + d, 32, now).0, m, 1, later).0 == vfs_open_spec(
            v,
            m.push(sep()) + d,
            32,
            now,
        ).0,
        opened_at(vfs_open_spec(vfs_open_spec(v, m.push(sep()) + d, 32, now).0, m, 1, later).1, i, 0),
        handle_text(vfs_open_spec(v, m.push(sep()) + d, 32, now).0, Some(i as usize), 0) == handle_text(
            v,
            Some(i as usize),
            0,
        ) + entry_bytes(d),
        vfs_open_spec(vfs_open_spec(v, m.push(sep()) + d, 32, now).0, m.push(sep()) + d, 32, later).0
            == vfs_open_spec(v, m.push(sep()) + d, 32, now).0,
        opened_at(
            vfs_open_spec(vfs_open_spec(v, m.push(sep()) + d, 32, now).0, m.push(sep()) + d, 32, later).1,
            i,
            v[i].1.len() as int,
        ),
{
    let path = m.push(sep()) + d;
    let rest = Seq::<char>::empty().push(sep()) + d;
    let fs = v[i].1;
    let n = fs.len() as int;
    lemma_option_bits();
    lemma_child_path(m, d);
    lemma_mount_index_unique(v, m, i);
    lemma_deepest_child(v, i, m, d);
    law_mkdir_then_list(fs, 0, d, now, later);
    let f2 = ensure(fs, 0, d, fresh_dir(now)).0;
    // the first mkdir
    lemma_open_top(fs, d, 32, now);
    assert(open_in_dir(fs, 0, rest, 32, now) == crate::ramfs::open_node(f2, n, 32, now));
    assert(f2[n] == fresh_dir(now));
    assert(open_spec(fs, rest, 32, now) == (f2, Ok::<OpenView, FSErrorKind>(OpenView::Node { node: n, perms: 0, cursor: 0 })));
    lemma_open_single(v, path, 32, now);
    let v1 = v.update(i, (m, f2));
    assert(vfs_open_spec(v, path, 32, now).0 == v1);
    // the table keeps its points
    assert forall|k: int| 0 <= k < v.len() implies #[trigger] v[k].0 == v1[k].0 by {}
    lemma_mount_index_same_points(v, v1, m);
    lemma_mount_index_same_points(v, v1, path);
    lemma_deepest_child(v1, i, m, d);
    assert(v1[i].1 == f2);
    assert(f2[0].node is Dir);
    assert(entries_of(f2[0]) == entries_of(fs[0]).push((d, n as usize)));
    crate::ramfs::lemma_entry_index(entries_of(fs[0]), d);
    assert(crate::ramfs::insert_entry(entries_of(fs[0]), d, n as usize) == entries_of(fs[0]).push((d, n as usize)));
    crate::ramfs::lemma_insert_entry(entries_of(fs[0]), d, n as usize);
    assert(lookup(entries_of(f2[0]), d) == Some(n as usize));
    // listing m/d
    lemma_open_top(f2, d, 1, later);
    assert(open_spec(f2, rest, 1, later) == (f2, Ok::<OpenView, FSErrorKind>(OpenView::Node { node: n, perms: 1, cursor: 0 })));
    lemma_open_single(v1, path, 1, later);
    assert(v1.update(i, (v1[i].0, f2)) =~= v1);
    // listing m
    assert(deepest_from(v1, m, m) == Some((i, m.skip(m.len() as int))));
    assert(m.skip(m.len() as int) =~= Seq::<char>::empty());
    assert(open_spec(f2, Seq::<char>::empty(), 1, later) == (f2, Ok::<OpenView, FSErrorKind>(OpenView::Node { node: 0, perms: 1, cursor: 0 })));
    lemma_open_single(v1, m, 1, later);
    // the second mkdir
    lemma_open_top(f2, d, 32, later);
    assert(open_spec(f2, rest, 32, later) == (f2, Ok::<OpenView, FSErrorKind>(OpenView::Node { node: n, perms: 0, cursor: 0 })));
    lemma_open_single(v1, path, 32, later);
    // the listings
    assert(names_of(Seq::<(Seq<char>, usize)>::empty()) =~= Seq::<Seq<char>>::empty());
    assert((i as usize) as int == i && (n as usize) as int == n);
    assert(v1[i].1[n].node == NodeView::Dir(Seq::<(Seq<char>, usize)>::empty()));
    assert(handle_text(v1, Some(i as usize), n as usize) == listing_from(names_of(Seq::<(Seq<char>, usize)>::empty()), 0));
    assert(handle_text(v1, Some(i as usize), 0) == listing_from(names_of(entries_of(f2[0])), 0));
    assert(handle_text(v, Some(i as usize), 0) == listing_from(names_of(entries_of(fs[0])), 0));
}


/// Law: removing `m/d`, an entry of the root of the in-memory file system
/// mounted at `m` (that root writable and searchable, no mount of either
/// kind being at `m/d` itself), through the whole table: a file goes, the
/// process file systems stay as they were, and opening `m/d` to read it
/// afterwards fails with `NotFound`; a directory is refused with `IsADir`
/// without `RECURSIVE`, and both tables stay as they were.
pub proof fn law_rm_then_open(
    v: Seq<(Seq<char>, Seq<FileView>)>,
    pv: Seq<(Seq<char>, Seq<ProcView>)>,
    i: int,
    m: Seq<char>,
    d: Seq<char>,
    c: usize,
    now: u64,
)
    requires
        vfs_wf(v),
        0 <= i < v.len(),
        v[i].0 == m,
        m != seq![sep()],
        lacks(d, sep()),
        d.len() > 0,
        mount_index(v, m.push(sep()) + d) < 0,
        mount_index(pv, m.push(sep()) + d) < 0,
        perm_w(v[i].1[0].perms),
        perm_x(v[i].1[0].perms),
        lookup(entries_of(v[i].1[0]), d) == Some(c),
        c < v[i].1.len(),
    ensures
        proc_target(v, pv, m.push(sep()) + d) is None,
        !is_dir(v[i].1[c as int]) ==> unlink_node_spec(v, pv, m.push(sep()) + d, 0).2 is Ok
            && unlink_node_spec(v, pv, m.push(sep()) + d, 0).1 == pv
            && open_ends(unlink_node_spec(v, pv, m.push(sep()) + d, 0).0, m.push(sep()) + d, 1, now)
            && vfs_open_spec(unlink_node_spec(v, pv, m.push(sep()) + d, 0).0, m.push(sep()) + d, 1, now).1
            == Err::<HandleView, FSErrorKind>(FSErrorKind::NotFound),
        is_dir(v[i].1[c as int]) ==> unlink_node_spec(v, pv, m.push(sep()) + d, 0) == (v, pv, Err::<(), FSErrorKind>(
            FSErrorKind::IsADir,
        )),
{
    let path = m.push(sep()) + d;
    let rest = Seq::<char>::empty().push(sep()) + d;
    let fs = v[i].1;
    lemma_option_bits();
    assert(0u32 & 2u32 != 2u32) by (bit_vector);
    lemma_child_path(m, d);
    lemma_mount_index_unique(v, m, i);
    lemma_deepest_child(v, i, m, d);
    assert(proc_target_from(v, pv, path, m) is None);
    assert(proc_target(v, pv, path) is None);
    lemma_open_top(fs, d, 0, now);
    law_unlink_then_open(fs, 0, rest, 0, now);
    if !is_dir(fs[c as int]) {
        let f2 = unlink_in_dir(fs, 0, rest, 0).0;
        assert(unlink_in_dir(fs, 0, rest, 0).1 is Ok);
        let v1 = v.update(i, (m, f2));
        assert(unlink_node_spec(v, pv, path, 0).0 == v1);
        assert forall|k: int| 0 <= k < v.len() implies #[trigger] v[k].0 == v1[k].0 by {}
        lemma_mount_index_same_points(v, v1, m);
        lemma_mount_index_same_points(v, v1, path);
        lemma_deepest_child(v1, i, m, d);
        lemma_open_top(f2, d, 1, now);
        assert(open_spec(f2, rest, 1, now).1 == Err::<OpenView, FSErrorKind>(FSErrorKind::NotFound));
        lemma_open_single(v1, path, 1, now);
    }
}


/// What `fs_util::symlink` does to the table: `path` is opened with
/// `CREATE_LINK | WRITE` and the text of `to` written through the handle
/// at offset zero.
pub open spec fn symlink_spec(v: Seq<(Seq<char>, Seq<FileView>)>, path: Seq<char>, to: Seq<char>, now: u64) -> (
    Seq<(Seq<char>, Seq<FileView>)>,
    Result<usize, FSErrorKind>,
) {
    let (v1, r) = vfs_open_spec(v, path, 130, now);
    match r {
        Err(k) => (v1, Err(k)),
        Ok(h) => vfs_write_spec(v1, h.mount_usize(), h.node as usize, h.perms, encode_utf8(to), 0, now),
    }
}

/// Law: making `m/d` a link to `to`, where `d` is a name that the root of
/// the in-memory file system mounted at `m` does not hold (that root being
/// writable and searchable, no mount being at `m/d`), succeeds; afterwards
/// opening `m/d` with links followed and nothing created opens whatever
/// `to` opens, in any mount: the same mount, node, permissions and cursor,
/// and the same table, the handle carrying `to` as its path, so what is
/// written through the link is read through a handle on the target and the
/// other way round; opening `m/d` with `NO_FOLLOW` and `READ` gives the
/// link itself, whose text is `to`.
pub proof fn law_symlink_round_trip(
    v: Seq<(Seq<char>, Seq<FileView>)>,
    i: int,
    m: Seq<char>,
    d: Seq<char>,
    to: Seq<char>,
    now: u64,
    options: u32,
    later: u64,
    fuel: nat,
)
    requires
        vfs_wf(v),
        0 <= i < v.len() <= usize::MAX,
        v[i].0 == m,
        m != seq![sep()],
        lacks(d, sep()),
        d.len() > 0,
        mount_index(v, m.push(sep()) + d) < 0,
        perm_w(v[i].1[0].perms),
        perm_x(v[i].1[0].perms),
        lookup(entries_of(v[i].1[0]), d) is None,
        v[i].1.len() < usize::MAX,
        options & 240 == 0,
        options & 256 != 256,
    ensures
        symlink_spec(v, m.push(sep()) + d, to, now).1 == Ok::<usize, FSErrorKind>(encode_utf8(to).len() as usize),
        open_once(symlink_spec(v, m.push(sep()) + d, to, now).0, m.push(sep()) + d, options, later) == (
            symlink_spec(v, m.push(sep()) + d, to, now).0,
            Ok::<OpenStep, FSErrorKind>(OpenStep::Link(to)),
        ),
        open_follow(symlink_spec(v, m.push(sep()) + d, to, now).0, m.push(sep()) + d, options, later, fuel + 1).0
            == open_follow(symlink_spec(v, m.push(sep()) + d, to, now).0, to, options, later, fuel).0,
        open_follow(symlink_spec(v, m.push(sep()) + d, to, now).0, to, options, later, fuel).1 matches Some(Ok(h))
            ==> open_follow(symlink_spec(v, m.push(sep()) + d, to, now).0, m.push(sep()) + d, options, later, fuel + 1).1
            == Some(Ok::<HandleView, FSErrorKind>(
            HandleView { mount: h.mount, node: h.node, perms: h.perms, cursor: h.cursor, path: Some(to) },
        )),
        opened_at(vfs_open_spec(symlink_spec(v, m.push(sep()) + d, to, now).0, m.push(sep()) + d, 257, later).1, i, v[i].1.len() as int),
        handle_text(symlink_spec(v, m.push(sep()) + d, to, now).0, Some(i as usize), v[i].1.len() as usize) == encode_utf8(to),
{
    let path = m.push(sep()) + d;
    let rest = Seq::<char>::empty().push(sep()) + d;
    let fs = v[i].1;
    let n = fs.len() as int;
    lemma_option_bits();
    assert(130u32 & 240u32 != 0u32 && 130u32 & 32u32 != 32u32 && 130u32 & 128u32 == 128u32 && 130u32 & 1u32 != 1u32
        && 130u32 & 2u32 == 2u32 && 130u32 & 512u32 != 512u32) by (bit_vector);
    assert(#[verifier::truncate] ((130u32 & 15u32) as u8) == 2u8 && 2u8 & 4u8 != 4u8 && 2u8 & 10u8 != 10u8
        && 2u8 & 2u8 == 2u8 && 3u8 & 2u8 == 2u8 && 3u8 & 1u8 == 1u8) by (bit_vector);
    assert(257u32 & 240u32 == 0u32 && 257u32 & 32u32 != 32u32 && 257u32 & 128u32 != 128u32 && 257u32 & 80u32 == 0u32
        && 257u32 & 256u32 == 256u32 && 257u32 & 1u32 == 1u32 && 257u32 & 2u32 != 2u32 && 257u32 & 512u32 != 512u32)
        by (bit_vector);
    assert(#[verifier::truncate] ((257u32 & 15u32) as u8) == 1u8) by (bit_vector);
    lemma_child_path(m, d);
    lemma_mount_index_unique(v, m, i);
    lemma_deepest_child(v, i, m, d);
    // opening the link to write it makes it
    let f2 = ensure(fs, 0, d, fresh_link(now)).0;
    assert(f2[n] == fresh_link(now));
    lemma_open_top(fs, d, 130, now);
    assert(open_spec(fs, rest, 130, now) == (f2, Ok::<OpenView, FSErrorKind>(OpenView::Node { node: n, perms: 2, cursor: 0 })));
    lemma_open_single(v, path, 130, now);
    let v1 = v.update(i, (m, f2));
    assert(vfs_open_spec(v, path, 130, now).0 == v1);
    assert((i as usize) as int == i && (n as usize) as int == n);
    // writing the target's text
    let f3 = write_spec(f2, n, encode_utf8(to), 0, now).0;
    let v2 = v1.update(i, (m, f3));
    assert(symlink_spec(v, path, to, now).0 == v2);
    assert(f2[0].node is Dir);
    assert(entries_of(f2[0]) == entries_of(fs[0]).push((d, n as usize)));
    crate::ramfs::lemma_entry_index(entries_of(fs[0]), d);
    assert(crate::ramfs::insert_entry(entries_of(fs[0]), d, n as usize) == entries_of(fs[0]).push((d, n as usize)));
    crate::ramfs::lemma_insert_entry(entries_of(fs[0]), d, n as usize);
    assert(lookup(entries_of(f2[0]), path_file(rest)) == Some(n as usize));
    law_link_round_trip(f2, 0, rest, n, to, options, now, later);
    // the table keeps its points
    assert forall|k: int| 0 <= k < v.len() implies #[trigger] v[k].0 == v2[k].0 by {}
    lemma_mount_index_same_points(v, v2, m);
    lemma_mount_index_same_points(v, v2, path);
    lemma_deepest_child(v2, i, m, d);
    assert(v2[i].1 == f3);
    lemma_open_top(f3, d, options, later);
    assert(v2.update(i, (v2[i].0, f3)) =~= v2);
    law_link_leads_to_target(v2, path, to, options, later, fuel);
    // opening the link itself
    vstd::utf8::encode_utf8_decode_utf8(to);
    vstd::utf8::encode_utf8_valid_utf8(to);
    assert(f3[0] == f2[0]);
    assert(f3[n].node == NodeView::Link(to));
    assert(f3[n].perms == 3);
    lemma_open_top(f3, d, 257, later);
    assert(open_spec(f3, rest, 257, later) == (f3, Ok::<OpenView, FSErrorKind>(OpenView::Node { node: n, perms: 1, cursor: 0 })));
    lemma_open_single(v2, path, 257, later);
}

} // verus!
