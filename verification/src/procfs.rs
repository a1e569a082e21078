//! The process file system: a tree of directories whose files stand for
//! devices, and the registry of devices by path that it is filled from.
//!
//! Nodes live in an arena and are named by their position in it; node 0 is
//! the root directory. A device is known here by its number; what reading
//! or writing it does is up to the device, and the operations below say
//! which device an operation on a device file goes to.
use vstd::prelude::*;
use vstd::string::StrSliceExecFns;

use crate::chars::split_on;
use crate::dirmap::has_key;
use crate::fd::{FPerms, FStat, File};
use crate::fs::{ErrorCause, FSErrRepr, FSError, FSErrorKind, FSResult, NodeType, UnlinkOptions};
use crate::fs::OpenOptions;
use crate::path::{Path, PathBuf, path_file, path_parent, path_strip_prefix, sep};
use crate::ramfs::{
    DirData, ends_with_sep, ends_with_slash, entry_index, insert_entry, keys_unique, lemma_entry_index,
    lemma_entry_index_unique, lemma_insert_entry, lemma_swap_removed, listing_from, lookup, names_of,
    append_bytes, copy_window, dir_display, res_agrees, swap_removed,
};
use crate::tty::{Read, Write};
use crate::vfs::{VFS, unlink_node_spec};

verus! {

/// A node of the process file system, as plain values: a directory with its
/// entries (name and node), or a file standing for a device.
pub enum ProcView {
    Dir(Seq<(Seq<char>, usize)>),
    Device(u64),
}

/// A node: a directory, or a file standing for the device of this number.
pub enum ProcNode {
    Dir(DirData),
    File(u64),
}

impl ProcNode {
    pub closed spec fn view(&self) -> ProcView {
        match self {
            ProcNode::Dir(d) => ProcView::Dir(d.view()),
            ProcNode::File(dev) => ProcView::Device(*dev),
        }
    }
}

/// The process file system.
pub struct ProcFS {
    nodes: Vec<ProcNode>,
}

pub open spec fn pentries(n: ProcView) -> Seq<(Seq<char>, usize)> {
    match n {
        ProcView::Dir(e) => e,
        _ => Seq::empty(),
    }
}

pub open spec fn pis_dir(n: ProcView) -> bool {
    n is Dir
}

/// The arena is well formed: it has a root directory, every directory
/// entry names a node of the arena, and no directory repeats a name.
pub open spec fn proc_wf(fs: Seq<ProcView>) -> bool {
    &&& 1 <= fs.len() <= usize::MAX
    &&& pis_dir(fs[0])
    &&& forall|d: int, i: int|
        0 <= d < fs.len() && 0 <= i < pentries(fs[d]).len() ==> (#[trigger] pentries(fs[d])[i]).1
            < fs.len()
    &&& forall|d: int| 0 <= d < fs.len() ==> keys_unique(#[trigger] pentries(fs[d]))
}

/// The entry `name` of directory `d`, a new empty directory when missing.
pub open spec fn ensure_dir(fs: Seq<ProcView>, d: int, name: Seq<char>) -> (Seq<ProcView>, int) {
    match lookup(pentries(fs[d]), name) {
        Some(i) => (fs, i as int),
        None => (
            fs.update(d, ProcView::Dir(pentries(fs[d]).push((name, fs.len() as usize)))).push(
                ProcView::Dir(Seq::empty()),
            ),
            fs.len() as int,
        ),
    }
}

/// A new file for device `dev`, filed under `name` in directory `d` (in
/// place of an entry of that name).
pub open spec fn add_device(fs: Seq<ProcView>, d: int, name: Seq<char>, dev: u64) -> Seq<ProcView> {
    fs.update(d, ProcView::Dir(insert_entry(pentries(fs[d]), name, fs.len() as usize))).push(
        ProcView::Device(dev),
    )
}

/// One step from directory `cur` to its entry `name`; with `create`, a
/// missing entry is made a new directory.
pub open spec fn proc_step(fs: Seq<ProcView>, cur: int, name: Seq<char>, create: bool) -> (
    Seq<ProcView>,
    Result<int, FSErrorKind>,
) {
    if !pis_dir(fs[cur]) {
        (fs, Err(FSErrorKind::InvalidPath))
    } else if create {
        let (f, i) = ensure_dir(fs, cur, name);
        (f, Ok(i))
    } else {
        match lookup(pentries(fs[cur]), name) {
            Some(i) => (fs, Ok(i as int)),
            None => (fs, Err(FSErrorKind::NotFound)),
        }
    }
}

/// Walking the components from the root: each must lead to a directory.
pub open spec fn proc_walk(fs: Seq<ProcView>, comps: Seq<Seq<char>>, create: bool) -> (
    Seq<ProcView>,
    Result<int, FSErrorKind>,
)
    decreases comps.len(),
{
    if comps.len() == 0 {
        (fs, Ok(0))
    } else {
        let (f, r) = proc_walk(fs, comps.drop_last(), create);
        match r {
            Err(e) => (f, Err(e)),
            Ok(c) => {
                let (f2, r2) = proc_step(f, c, comps.last(), create);
                match r2 {
                    Err(e) => (f2, Err(e)),
                    Ok(ch) => if pis_dir(f2[ch]) {
                        (f2, Ok(ch))
                    } else {
                        (f2, Err(FSErrorKind::InvalidPath))
                    },
                }
            },
        }
    }
}

/// The node a path leads to: the root for a path without `/`; otherwise the
/// directories of its parent are entered in turn and the last component is
/// looked up there; with `create`, what is missing on the way, the last
/// component included, is made a directory.
pub open spec fn proc_traverse(fs: Seq<ProcView>, path: Seq<char>, create: bool) -> (
    Seq<ProcView>,
    Result<int, FSErrorKind>,
) {
    match path_parent(path) {
        None => (fs, Ok(0)),
        Some(parent) => {
            let (f, r) = proc_walk(fs, split_on(parent, sep()).skip(1), create);
            match r {
                Err(e) => (f, Err(e)),
                Ok(c) => proc_step(f, c, path_file(path), create),
            }
        },
    }
}

/// The entry `name` of directory `pd`; when it is missing, the device
/// registered under `path` is filed there as a new node.
pub open spec fn get_or_update(
    fs: Seq<ProcView>,
    pd: int,
    path: Seq<char>,
    name: Seq<char>,
    reg: Map<Seq<char>, u64>,
) -> (Seq<ProcView>, Result<int, FSErrorKind>) {
    match lookup(pentries(fs[pd]), name) {
        Some(n) => (fs, Ok(n as int)),
        None => if reg.dom().contains(path) {
            (add_device(fs, pd, name, reg[path]), Ok(fs.len() as int))
        } else {
            (fs, Err(FSErrorKind::NotFound))
        },
    }
}

/// Opening a path with the options and the registry `reg`: the root for a
/// path without `/`; otherwise the parent is reached (creating directories
/// on the way with `CREATE_ALL`) and must be a directory; a path ending in
/// `/` opens that directory, `CREATE_DIR` opens the entry (made a new
/// directory when missing), and otherwise the entry is looked up, or filled
/// in from the registry.
pub open spec fn proc_open_spec(
    fs: Seq<ProcView>,
    path: Seq<char>,
    options: u32,
    reg: Map<Seq<char>, u64>,
) -> (Seq<ProcView>, Result<int, FSErrorKind>) {
    match path_parent(path) {
        None => (fs, Ok(0)),
        Some(parent) => {
            let (f1, r1) = proc_traverse(fs, parent, options & 64 == 64);
            match r1 {
                Err(e) => (f1, Err(e)),
                Ok(pd) => if !pis_dir(f1[pd]) {
                    (f1, Err(FSErrorKind::InvalidPath))
                } else if ends_with_sep(path) {
                    (f1, Ok(pd))
                } else if options & 32 == 32 {
                    let (f2, n) = ensure_dir(f1, pd, path_file(path));
                    (f2, Ok(n))
                } else {
                    get_or_update(f1, pd, path, path_file(path), reg)
                },
            }
        },
    }
}

/// Unlinking the entry `name` from directory `pd`: a directory goes only
/// with `RECURSIVE`. The node detached is the result.
pub open spec fn proc_unlink_in(fs: Seq<ProcView>, pd: int, name: Seq<char>, options: u32) -> (
    Seq<ProcView>,
    Result<int, FSErrorKind>,
) {
    let e = pentries(fs[pd]);
    if !pis_dir(fs[pd]) {
        (fs, Err(FSErrorKind::InvalidPath))
    } else {
        match lookup(e, name) {
            None => (fs, Err(FSErrorKind::NotFound)),
            Some(c) => if pis_dir(fs[c as int]) && options & 2 != 2 {
                (fs, Err(FSErrorKind::PermissionDenied))
            } else {
                (fs.update(pd, ProcView::Dir(swap_removed(e, entry_index(e, name)))), Ok(c as int))
            },
        }
    }
}

/// Unlinking a path: a path ending in `/` needs `RECURSIVE`; the parent is
/// reached without creating anything; a path without `/` has the root as
/// parent, and only with `NO_PRESERVE_ROOT`, `FORCE` and `RECURSIVE`
/// together.
pub open spec fn proc_unlink_spec(fs: Seq<ProcView>, path: Seq<char>, options: u32) -> (
    Seq<ProcView>,
    Result<int, FSErrorKind>,
) {
    let (f1, r1) = match path_parent(path) {
        Some(pp) => if ends_with_sep(path) && options & 2 != 2 {
            (fs, Err(FSErrorKind::PermissionDenied))
        } else {
            proc_traverse(fs, pp, false)
        },
        None => if options & 7 == 7 {
            (fs, Ok(0int))
        } else {
            (fs, Err(FSErrorKind::PermissionDenied))
        },
    };
    match r1 {
        Err(e) => (f1, Err(e)),
        Ok(pd) => proc_unlink_in(f1, pd, path_file(path), options),
    }
}

/// The name under which flushing `prefix` files the device at `dev_path`:
/// the rest of the device's path after the prefix, which (when the prefix
/// ends in `/`) must itself begin with `/`, which is then dropped.
pub open spec fn flush_name(dev_path: Seq<char>, prefix: Seq<char>, sanitize: bool) -> Option<
    Seq<char>,
> {
    match path_strip_prefix(dev_path, prefix) {
        None => None,
        Some(post) => if sanitize {
            path_strip_prefix(post, seq![sep()])
        } else {
            Some(post)
        },
    }
}

/// Filing each of the devices `items` (path and number), in turn, under
/// directory `d`, those that `flush_name` gives a name.
pub open spec fn flush_items(
    fs: Seq<ProcView>,
    d: int,
    items: Seq<(Seq<char>, u64)>,
    prefix: Seq<char>,
    sanitize: bool,
) -> Seq<ProcView>
    decreases items.len(),
{
    if items.len() == 0 {
        fs
    } else {
        let f = flush_items(fs, d, items.drop_last(), prefix, sanitize);
        match flush_name(items.last().0, prefix, sanitize) {
            None => f,
            Some(name) => add_device(f, d, name, items.last().1),
        }
    }
}

/// Flushing `path` with the devices `items`: the path is reached, creating
/// directories as needed, and must be a directory; the devices below it are
/// then filed there.
pub open spec fn proc_flush_spec(fs: Seq<ProcView>, path: Seq<char>, items: Seq<(Seq<char>, u64)>) -> (
    Seq<ProcView>,
    Result<(), FSErrorKind>,
) {
    let (f1, r1) = proc_traverse(fs, path, true);
    match r1 {
        Err(e) => (f1, Err(e)),
        Ok(d) => if !pis_dir(f1[d]) {
            (f1, Err(FSErrorKind::NotADir))
        } else {
            (flush_items(f1, d, items, path, ends_with_sep(path)), Ok(()))
        },
    }
}

/// `items` lists the registry `reg`: each path once, with its device.
pub open spec fn enumerates(items: Seq<(Seq<char>, u64)>, reg: Map<Seq<char>, u64>) -> bool {
    &&& items.len() == reg.dom().len()
    &&& forall|i: int| 0 <= i < items.len() ==> reg.dom().contains(#[trigger] items[i].0) && reg[items[i].0] == items[i].1
    &&& forall|k: Seq<char>| #[trigger] reg.dom().contains(k) ==> exists|i: int| 0 <= i < items.len() && #[trigger] items[i].0 == k
    &&& forall|i: int, j: int| 0 <= i < items.len() && 0 <= j < items.len() && i != j ==> items[i].0 != items[j].0
}

/// Once walking a prefix of the components fails, walking all of them
/// fails the same way.
proof fn lemma_proc_walk_err_sticks(fs: Seq<ProcView>, comps: Seq<Seq<char>>, k: int, create: bool)
    requires
        0 <= k <= comps.len(),
        proc_walk(fs, comps.take(k), create).1 is Err,
    ensures
        proc_walk(fs, comps, create) == proc_walk(fs, comps.take(k), create),
    decreases comps.len(),
{
    if comps.len() == k {
        assert(comps.take(k) =~= comps);
    } else {
        assert(comps.drop_last().take(k) =~= comps.take(k));
        lemma_proc_walk_err_sticks(fs, comps.drop_last(), k, create);
    }
}

/// The registry's table of device numbers by path, kept in a hashbrown
/// `HashMap`.
#[verifier::external_body]
pub struct DeviceTable {
    map: hashbrown::HashMap<String, u64>,
}

/// What the table holds: the device number filed under each path.
pub uninterp spec fn device_table(t: DeviceTable) -> Map<Seq<char>, u64>;

/// `hashbrown::HashMap::new`: an empty table.
#[verifier::external_body]
fn table_new() -> (r: DeviceTable)
    ensures
        device_table(r).dom().is_empty(),
{
    DeviceTable { map: hashbrown::HashMap::new() }
}

/// `hashbrown::HashMap::insert`: `key` now maps to `dev`; the number it
/// mapped to before, if any, is returned.
#[verifier::external_body]
fn table_insert(t: &mut DeviceTable, key: String, dev: u64) -> (r: Option<u64>)
    ensures
        device_table(*final(t)) == device_table(*old(t)).insert(key@, dev),
        r == (if device_table(*old(t)).dom().contains(key@) {
            Some(device_table(*old(t))[key@])
        } else {
            None
        }),
{
    t.map.insert(key, dev)
}

/// `hashbrown::HashMap::remove`: `key` is taken out; the number it mapped
/// to, if any, is returned.
#[verifier::external_body]
fn table_remove(t: &mut DeviceTable, key: &str) -> (r: Option<u64>)
    ensures
        device_table(*final(t)) == device_table(*old(t)).remove(key@),
        r == (if device_table(*old(t)).dom().contains(key@) {
            Some(device_table(*old(t))[key@])
        } else {
            None
        }),
{
    t.map.remove(key)
}

/// `hashbrown::HashMap::get`: the number `key` maps to, if any.
#[verifier::external_body]
fn table_get(t: &DeviceTable, key: &str) -> (r: Option<u64>)
    ensures
        r == (if device_table(*t).dom().contains(key@) {
            Some(device_table(*t)[key@])
        } else {
            None
        }),
{
    t.map.get(key).copied()
}

/// `hashbrown::HashMap::iter`, collected: every path with its number, each
/// once, in the order the map's hashing gives.
#[verifier::external_body]
fn table_entries(t: &DeviceTable) -> (r: Vec<(String, u64)>)
    ensures
        enumerates(r@.map_values(|p: (String, u64)| (p.0@, p.1)), device_table(*t)),
{
    t.map.iter().map(|(k, v)| (k.clone(), *v)).collect()
}

/// A registered device, by its number.
#[derive(Debug, Clone, Copy)]
pub struct DeviceEntry {
    device: u64,
}

impl View for DeviceEntry {
    type V = u64;

    closed spec fn view(&self) -> u64 {
        self.device
    }
}

impl DeviceEntry {
    pub fn new(device: u64) -> (r: Self)
        ensures
            r@ == device,
    {
        DeviceEntry { device }
    }

    /// The device's number.
    pub fn into_inner(self) -> (r: u64)
        ensures
            r == self@,
    {
        self.device
    }
}

/// The devices known by path, from which the process file system is filled.
pub struct DeviceRegistry {
    devices: DeviceTable,
}

impl View for DeviceRegistry {
    type V = Map<Seq<char>, u64>;

    closed spec fn view(&self) -> Map<Seq<char>, u64> {
        device_table(self.devices)
    }
}

/// Deregistering `path` with the outcome `unlinked` of unlinking it from the
/// virtual file system (none when there is none): whether the device stays
/// registered, and the error, if any. A device not yet in the file system
/// goes as well; on any other failure it is filed again and the failure's
/// kind is reported.
pub open spec fn deregister_outcome(unlinked: Option<Result<(), FSErrorKind>>) -> Option<
    FSErrorKind,
> {
    match unlinked {
        None => None,
        Some(Ok(_)) => None,
        Some(Err(FSErrorKind::NotFound)) => None,
        Some(Err(k)) => Some(k),
    }
}

/// Law: deregistering succeeds when there is no file system, and when
/// unlinking the device's path succeeds or finds nothing there; any other
/// failure of the unlinking is the error reported.
pub proof fn law_deregister_outcome(unlinked: Option<Result<(), FSErrorKind>>)
    ensures
        unlinked is None ==> deregister_outcome(unlinked) is None,
        unlinked == Some(Ok::<(), FSErrorKind>(())) ==> deregister_outcome(unlinked) is None,
        unlinked == Some(Err::<(), FSErrorKind>(FSErrorKind::NotFound)) ==> deregister_outcome(unlinked) is None,
        forall|k: FSErrorKind|
            k != FSErrorKind::NotFound && unlinked == Some(Err::<(), FSErrorKind>(k)) ==> deregister_outcome(unlinked)
                == Some(k),
{
}

impl DeviceRegistry {
    pub fn new() -> (r: Self)
        ensures
            r@.dom().is_empty(),
    {
        DeviceRegistry { devices: table_new() }
    }

    /// Files `device` under `path`. A device already there is swapped out:
    /// the call then fails with `AlreadyExists`, and the error carries the
    /// older device.
    pub fn register(&mut self, device: u64, path: PathBuf) -> (r: FSResult<()>)
        ensures
            final(self)@ == old(self)@.insert(path@, device),
            match r {
                Ok(()) => !old(self)@.dom().contains(path@),
                Err(e) => old(self)@.dom().contains(path@) && e.repr() == (FSErrRepr::Custom {
                    kind: FSErrorKind::AlreadyExists,
                    err: ErrorCause::DeviceExists(old(self)@[path@]),
                }),
            },
    {
        let key = path.as_str().to_owned();
        match table_insert(&mut self.devices, key, device) {
            None => Ok(()),
            Some(older) => Err(
                FSError::custom(FSErrorKind::AlreadyExists, ErrorCause::DeviceExists(older)),
            ),
        }
    }

    /// Takes the device at `path` out of the registry and unlinks `path`
    /// from the virtual file system, when there is one; see
    /// `deregister_outcome` for what the unlinking's outcome decides. A path
    /// that is not registered fails with `InvalidPath`.
    pub fn deregister(&mut self, path: Path<'_>, vfs: &mut Option<VFS>) -> (r: FSResult<DeviceEntry>)
        requires
            *old(vfs) matches Some(v) ==> v.wf(),
        ensures
            *final(vfs) matches Some(v) ==> v.wf(),
            !old(self)@.dom().contains(path@) ==> final(self)@ == old(self)@ && *final(vfs) == *old(vfs)
                && (r matches Err(e) && e.kind_of() == FSErrorKind::InvalidPath),
            old(self)@.dom().contains(path@) ==> match *old(vfs) {
                Some(v) => *final(vfs) matches Some(w) && w.view() == unlink_node_spec(v.view(), v.proc_view(), path@, 0).0
                    && w.proc_view() == unlink_node_spec(v.view(), v.proc_view(), path@, 0).1,
                None => *final(vfs) is None,
            },
            old(self)@.dom().contains(path@) ==> match deregister_outcome(
                match *old(vfs) {
                    Some(v) => Some(unlink_node_spec(v.view(), v.proc_view(), path@, 0).2),
                    None => None,
                },
            ) {
                None => r matches Ok(d) && d@ == old(self)@[path@] && final(self)@ == old(self)@.remove(path@),
                Some(k) => r matches Err(e) && e.kind_of() == k && final(self)@ == old(self)@,
            },
            old(self)@.dom().contains(path@) ==> match *old(vfs) {
                None => r matches Ok(d) && d@ == old(self)@[path@] && !final(self)@.dom().contains(path@),
                Some(v) => match unlink_node_spec(v.view(), v.proc_view(), path@, 0).2 {
                    Ok(()) => r matches Ok(d) && d@ == old(self)@[path@] && !final(self)@.dom().contains(path@),
                    Err(FSErrorKind::NotFound) => r matches Ok(d) && d@ == old(self)@[path@]
                        && !final(self)@.dom().contains(path@),
                    Err(k) => r matches Err(e) && e.kind_of() == k && final(self)@ == old(self)@,
                },
            },
    {
        let device = match table_remove(&mut self.devices, path.as_str()) {
            Some(d) => d,
            None => {
                proof {
                    assert(device_table(self.devices) =~= old(self)@);
                }
                return Err(FSError::simple(FSErrorKind::InvalidPath));
            },
        };
        let mut taken = vfs.take();
        let r = match &mut taken {
            None => Ok(DeviceEntry::new(device)),
            Some(v) => {
                match v.unlink_node(path, UnlinkOptions::empty()) {
                    Ok(_) => Ok(DeviceEntry::new(device)),
                    Err(err) => {
                        if *err.kind() == FSErrorKind::NotFound {
                            Ok(DeviceEntry::new(device))
                        } else {
                            table_insert(&mut self.devices, path.as_str().to_owned(), device);
                            proof {
                                assert(device_table(self.devices) =~= old(self)@);
                            }
                            Err(FSError::simple(*err.kind()))
                        }
                    },
                }
            },
        };
        *vfs = taken;
        r
    }

    /// The device registered under `path`.
    pub fn get(&self, path: Path<'_>) -> (r: FSResult<DeviceEntry>)
        ensures
            match r {
                Ok(d) => self@.dom().contains(path@) && d@ == self@[path@],
                Err(e) => !self@.dom().contains(path@) && e.kind_of() == FSErrorKind::NotFound,
            },
    {
        match table_get(&self.devices, path.as_str()) {
            Some(dev) => Ok(DeviceEntry::new(dev)),
            None => Err(FSError::simple(FSErrorKind::NotFound)),
        }
    }
}

/// Directory `d` files a node for device `dev` under `name`.
pub open spec fn filed_as(fs: Seq<ProcView>, d: int, name: Seq<char>, dev: u64) -> bool {
    match lookup(pentries(fs[d]), name) {
        Some(n) => fs[n as int] == ProcView::Device(dev),
        None => false,
    }
}

/// Filing under another name leaves a name's entry as it was.
pub proof fn lemma_lookup_insert_other(e: Seq<(Seq<char>, usize)>, a: Seq<char>, v: usize, b: Seq<char>)
    requires
        keys_unique(e),
        a != b,
    ensures
        lookup(insert_entry(e, a, v), b) == lookup(e, b),
{
    let e2 = insert_entry(e, a, v);
    let i = entry_index(e, a);
    lemma_entry_index(e, a);
    lemma_insert_entry(e, a, v);
    lemma_entry_index(e, b);
    lemma_entry_index(e2, b);
    if entry_index(e, b) >= 0 {
        let k = entry_index(e, b);
        assert(k != i);
        assert(e2[k] == e[k]);
        lemma_entry_index_unique(e2, b, k);
    } else if entry_index(e2, b) >= 0 {
        let j = entry_index(e2, b);
        if j < e.len() && j != i {
            assert(e2[j] == e[j]);
            assert(has_key(e, b));
        }
    }
}

/// Filing a new device node keeps the arena well formed.
pub proof fn lemma_add_device_wf(fs: Seq<ProcView>, d: int, name: Seq<char>, dev: u64)
    requires
        proc_wf(fs),
        0 <= d < fs.len(),
        pis_dir(fs[d]),
        fs.len() < usize::MAX,
    ensures
        proc_wf(add_device(fs, d, name, dev)),
        add_device(fs, d, name, dev).len() == fs.len() + 1,
        pis_dir(add_device(fs, d, name, dev)[d]),
        forall|k: int| 0 <= k < fs.len() && k != d ==> #[trigger] add_device(fs, d, name, dev)[k] == fs[k],
{
    let e = pentries(fs[d]);
    let idx = fs.len() as usize;
    let target = add_device(fs, d, name, dev);
    lemma_insert_entry(e, name, idx);
    assert forall|dd: int| 0 <= dd < target.len() implies keys_unique(#[trigger] pentries(target[dd])) by {
        if dd != d && dd < fs.len() {
            assert(pentries(target[dd]) == pentries(fs[dd]));
        }
    }
    assert forall|dd: int, i: int| 0 <= dd < target.len() && 0 <= i < pentries(target[dd]).len() implies (#[trigger] pentries(target[dd])[i]).1 < target.len() by {
        if dd == d {
            let e2 = insert_entry(e, name, idx);
            if e2[i].1 != idx {
                let j = choose|j: int| 0 <= j < e.len() && e2[i] == e[j];
                assert(pentries(fs[dd])[j] == e[j]);
            }
        } else if dd < fs.len() {
            assert(pentries(target[dd]) == pentries(fs[dd]));
        }
    }
}

/// The names `flush_name` gives tell device paths apart.
pub proof fn lemma_flush_name_injective(a: Seq<char>, b: Seq<char>, prefix: Seq<char>, sanitize: bool)
    requires
        flush_name(a, prefix, sanitize) is Some,
        flush_name(a, prefix, sanitize) == flush_name(b, prefix, sanitize),
    ensures
        a == b,
{
    let pa = a.skip(prefix.len() as int);
    let pb = b.skip(prefix.len() as int);
    assert(a =~= prefix + pa);
    assert(b =~= prefix + pb);
    if sanitize {
        let s = seq![sep()];
        assert(pa =~= s + pa.skip(1));
        assert(pb =~= s + pb.skip(1));
    }
}

/// Law: a device registered under a path is what looking the path up gives
/// back, whatever was registered there before; taking it out leaves the rest
/// of the registry as it was.
pub proof fn law_register_then_get(reg: Map<Seq<char>, u64>, p: Seq<char>, dev: u64)
    ensures
        reg.insert(p, dev).dom().contains(p),
        reg.insert(p, dev)[p] == dev,
        reg.insert(p, dev).remove(p) == reg.remove(p),
        forall|q: Seq<char>| q != p && reg.dom().contains(q) ==> #[trigger] reg.insert(p, dev)[q] == reg[q],
{
    assert(reg.insert(p, dev).remove(p) =~= reg.remove(p));
}

/// Law: opening a missing entry of a directory files the device registered
/// under the path as a new node; looking the entry up again finds that same
/// node and changes nothing.
pub proof fn law_device_filed_once(
    fs: Seq<ProcView>,
    pd: int,
    path: Seq<char>,
    name: Seq<char>,
    reg: Map<Seq<char>, u64>,
)
    requires
        proc_wf(fs),
        0 <= pd < fs.len(),
        pis_dir(fs[pd]),
        fs.len() < usize::MAX,
    ensures
        lookup(pentries(fs[pd]), name) is None && reg.dom().contains(path) ==> get_or_update(fs, pd, path, name, reg).1
            == Ok::<int, FSErrorKind>(fs.len() as int) && get_or_update(fs, pd, path, name, reg).0[fs.len() as int]
            == ProcView::Device(reg[path]),
        get_or_update(get_or_update(fs, pd, path, name, reg).0, pd, path, name, reg) == get_or_update(
            fs,
            pd,
            path,
            name,
            reg,
        ),
{
    let e = pentries(fs[pd]);
    if lookup(e, name) is None && reg.dom().contains(path) {
        let f1 = add_device(fs, pd, name, reg[path]);
        lemma_insert_entry(e, name, fs.len() as usize);
        assert(pentries(f1[pd]) == insert_entry(e, name, fs.len() as usize));
    }
}

/// Law: once an unlink from directory `pd` succeeds, the name is gone from
/// it and every other name is filed as before.
pub proof fn law_proc_unlink_removes(fs: Seq<ProcView>, pd: int, name: Seq<char>, options: u32)
    requires
        proc_wf(fs),
        0 <= pd < fs.len(),
        proc_unlink_in(fs, pd, name, options).1 is Ok,
    ensures
        lookup(pentries(proc_unlink_in(fs, pd, name, options).0[pd]), name) is None,
        forall|other: Seq<char>|
            other != name ==> lookup(pentries(proc_unlink_in(fs, pd, name, options).0[pd]), other)
                == #[trigger] lookup(pentries(fs[pd]), other),
{
    let e = pentries(fs[pd]);
    let i = entry_index(e, name);
    lemma_entry_index(e, name);
    let r = swap_removed(e, i);
    lemma_swap_removed(e, i);
    assert(pentries(proc_unlink_in(fs, pd, name, options).0[pd]) == r);
    lemma_entry_index(r, name);
    if entry_index(r, name) >= 0 {
        let j = entry_index(r, name);
        let w = choose|w: int| 0 <= w < e.len() && #[trigger] r[j] == e[w];
        lemma_entry_index_unique(e, name, w);
        if j == i {
            assert(r[j] == e[e.len() - 1]);
        } else {
            assert(r[j] == e[j]);
        }
    }
    assert forall|other: Seq<char>| other != name implies lookup(r, other) == #[trigger] lookup(e, other) by {
        lemma_entry_index(e, other);
        lemma_entry_index(r, other);
        if entry_index(e, other) >= 0 {
            let k = entry_index(e, other);
            if k == e.len() - 1 && k != i {
                assert(r[i] == e[k]);
                lemma_entry_index_unique(r, other, i);
            } else if k != i {
                assert(r[k] == e[k]);
                lemma_entry_index_unique(r, other, k);
            }
        } else {
            if entry_index(r, other) >= 0 {
                let j = entry_index(r, other);
                let w = choose|w: int| 0 <= w < e.len() && #[trigger] r[j] == e[w];
                assert(has_key(e, other));
            }
        }
    }
}

/// Law: filing devices with distinct paths under directory `d`, as a flush
/// does, keeps the arena well formed and leaves each device that
/// `flush_name` names found there under its name, as a node for it.
pub proof fn law_flush_files_each(
    fs: Seq<ProcView>,
    d: int,
    items: Seq<(Seq<char>, u64)>,
    prefix: Seq<char>,
    sanitize: bool,
)
    requires
        proc_wf(fs),
        0 <= d < fs.len(),
        pis_dir(fs[d]),
        fs.len() + items.len() <= usize::MAX,
        forall|i: int, j: int| 0 <= i < items.len() && 0 <= j < items.len() && i != j ==> items[i].0 != items[j].0,
    ensures
        proc_wf(flush_items(fs, d, items, prefix, sanitize)),
        pis_dir(flush_items(fs, d, items, prefix, sanitize)[d]),
        fs.len() <= flush_items(fs, d, items, prefix, sanitize).len() <= fs.len() + items.len(),
        forall|i: int|
            0 <= i < items.len() && (#[trigger] flush_name(items[i].0, prefix, sanitize)) is Some ==> filed_as(
                flush_items(fs, d, items, prefix, sanitize),
                d,
                flush_name(items[i].0, prefix, sanitize).unwrap(),
                items[i].1,
            ),
    decreases items.len(),
{
    if items.len() > 0 {
        let rest = items.drop_last();
        law_flush_files_each(fs, d, rest, prefix, sanitize);
        let f = flush_items(fs, d, rest, prefix, sanitize);
        let last = items.last();
        match flush_name(last.0, prefix, sanitize) {
            None => {
                assert forall|i: int|
                    0 <= i < items.len() && (#[trigger] flush_name(items[i].0, prefix, sanitize)) is Some implies filed_as(
                        f,
                        d,
                        flush_name(items[i].0, prefix, sanitize).unwrap(),
                        items[i].1,
                    ) by {
                    assert(i < items.len() - 1);
                    assert(rest[i] == items[i]);
                }
            },
            Some(nm) => {
                lemma_add_device_wf(f, d, nm, last.1);
                let g = add_device(f, d, nm, last.1);
                lemma_insert_entry(pentries(f[d]), nm, f.len() as usize);
                assert forall|i: int|
                    0 <= i < items.len() && (#[trigger] flush_name(items[i].0, prefix, sanitize)) is Some implies filed_as(
                        g,
                        d,
                        flush_name(items[i].0, prefix, sanitize).unwrap(),
                        items[i].1,
                    ) by {
                    if i < items.len() - 1 {
                        assert(rest[i] == items[i]);
                        let other = flush_name(items[i].0, prefix, sanitize).unwrap();
                        if other == nm {
                            lemma_flush_name_injective(items[i].0, last.0, prefix, sanitize);
                        }
                        lemma_lookup_insert_other(pentries(f[d]), nm, f.len() as usize, other);
                        let e = pentries(f[d]);
                        lemma_entry_index(e, other);
                        let k = entry_index(e, other);
                        assert(e[k].1 < f.len());
                        let n = e[k].1;
                        assert(f[n as int] == ProcView::Device(items[i].1));
                        assert(n as int != d);
                        assert(g[n as int] == f[n as int]);
                    } else {
                        assert(items[i] == last);
                        assert(g[f.len() as int] == ProcView::Device(last.1));
                    }
                }
            },
        }
    }
}

/// What an operation on a node comes to: done here, with this outcome, or
/// to be carried out by the device of this number.
#[derive(Debug)]
pub enum ProcIO<T> {
    Done(T),
    Device(u64),
}

impl ProcFS {
    pub closed spec fn view(&self) -> Seq<ProcView> {
        self.nodes@.map_values(|n: ProcNode| n.view())
    }

    pub open spec fn wf(&self) -> bool {
        proc_wf(self.view())
    }

    /// A file system holding only its empty root directory.
    pub fn new() -> (r: Self)
        ensures
            r.wf(),
            r.view() == seq![ProcView::Dir(Seq::empty())],
    {
        let mut nodes: Vec<ProcNode> = Vec::new();
        nodes.push(ProcNode::Dir(DirData::new()));
        let r = ProcFS { nodes };
        assert(r.view() =~= seq![ProcView::Dir(Seq::empty())]);
        r
    }

    /// The number of nodes.
    pub fn len(&self) -> (r: usize)
        ensures
            r == self.view().len(),
    {
        self.nodes.len()
    }

    /// Whether node `n` is a directory.
    pub fn is_dir(&self, n: usize) -> (r: bool)
        requires
            n < self.view().len(),
        ensures
            r == pis_dir(self.view()[n as int]),
    {
        match &self.nodes[n] {
            ProcNode::Dir(_) => true,
            ProcNode::File(_) => false,
        }
    }

    /// The kind of node `n`.
    pub fn node_type(&self, n: usize) -> (r: NodeType)
        requires
            n < self.view().len(),
        ensures
            r == (if pis_dir(self.view()[n as int]) {
                NodeType::Dir
            } else {
                NodeType::File
            }),
    {
        if self.is_dir(n) {
            NodeType::Dir
        } else {
            NodeType::File
        }
    }

    /// The device that node `n` stands for; none for a directory.
    pub fn device(&self, n: usize) -> (r: Option<u64>)
        requires
            n < self.view().len(),
        ensures
            match self.view()[n as int] {
                ProcView::Device(dev) => r == Some(dev),
                ProcView::Dir(_) => r is None,
            },
    {
        match &self.nodes[n] {
            ProcNode::Dir(_) => None,
            ProcNode::File(dev) => Some(*dev),
        }
    }

    /// The entry `name` of directory `d`.
    fn dir_get(&self, d: usize, name: &str) -> (r: Option<usize>)
        requires
            self.wf(),
            d < self.view().len(),
        ensures
            r == lookup(pentries(self.view()[d as int]), name@),
    {
        match &self.nodes[d] {
            ProcNode::Dir(dd) => {
                assert(dd.view() == pentries(self.view()[d as int]));
                dd.get(name)
            },
            ProcNode::File(_) => None,
        }
    }

    /// Files node `v` under `name` in directory `d`; the old node of that
    /// name is returned.
    fn dir_insert(&mut self, d: usize, name: String, v: usize) -> (r: Option<usize>)
        requires
            keys_unique(pentries(old(self).view()[d as int])),
            d < old(self).view().len(),
            pis_dir(old(self).view()[d as int]),
        ensures
            final(self).view() == old(self).view().update(
                d as int,
                ProcView::Dir(insert_entry(pentries(old(self).view()[d as int]), name@, v)),
            ),
            r == lookup(pentries(old(self).view()[d as int]), name@),
    {
        let ghost before = self.view();
        let mut r = None;
        match &mut self.nodes[d] {
            ProcNode::Dir(dd) => {
                r = dd.insert(name, v);
            },
            ProcNode::File(_) => {},
        }
        proof {
            let target = before.update(
                d as int,
                ProcView::Dir(insert_entry(pentries(before[d as int]), name@, v)),
            );
            assert(self.view() =~= target) by {
                assert forall|j: int| 0 <= j < target.len() implies #[trigger] self.view()[j] == target[j] by {
                    if j == d {
                        assert(self.view()[j] == self.nodes@[j].view());
                    }
                }
            }
        }
        r
    }

    /// The entry `name` of directory `d`, made a new empty directory when
    /// it is missing.
    fn ensure_dir(&mut self, d: usize, name: &str) -> (r: usize)
        requires
            old(self).wf(),
            d < old(self).view().len(),
            pis_dir(old(self).view()[d as int]),
        ensures
            final(self).wf(),
            (final(self).view(), r as int) == ensure_dir(old(self).view(), d as int, name@),
            r < final(self).view().len(),
    {
        match self.dir_get(d, name) {
            Some(i) => {
                proof {
                    let e = pentries(self.view()[d as int]);
                    lemma_entry_index(e, name@);
                    assert(e[entry_index(e, name@)].1 == i);
                }
                i
            },
            None => {
                let ghost old_view = self.view();
                let ghost e = pentries(old_view[d as int]);
                let idx = self.nodes.len();
                proof {
                    lemma_entry_index(e, name@);
                }
                self.dir_insert(d, name.to_owned(), idx);
                self.nodes.push(ProcNode::Dir(DirData::new()));
                let _total = self.nodes.len();
                proof {
                    let target = ensure_dir(old_view, d as int, name@).0;
                    assert(insert_entry(e, name@, idx) == e.push((name@, idx)));
                    assert(self.view() =~= target);
                    lemma_insert_entry(e, name@, idx);
                    assert forall|dd: int| 0 <= dd < target.len() implies keys_unique(#[trigger] pentries(target[dd])) by {
                        if dd != d && dd < old_view.len() {
                            assert(pentries(target[dd]) == pentries(old_view[dd]));
                        }
                    }
                    assert forall|dd: int, i: int| 0 <= dd < target.len() && 0 <= i < pentries(target[dd]).len() implies (#[trigger] pentries(target[dd])[i]).1 < target.len() by {
                        if dd == d {
                            if i < e.len() {
                                assert(pentries(target[dd])[i] == e[i]);
                            }
                        } else if dd < old_view.len() {
                            assert(pentries(target[dd]) == pentries(old_view[dd]));
                        }
                    }
                }
                idx
            },
        }
    }

    /// One step from `cur` to its entry `name`; see `proc_step`.
    fn step(&mut self, cur: usize, name: &str, create: bool) -> (r: FSResult<usize>)
        requires
            old(self).wf(),
            cur < old(self).view().len(),
        ensures
            final(self).wf(),
            final(self).view() == proc_step(old(self).view(), cur as int, name@, create).0,
            res_agrees(r, proc_step(old(self).view(), cur as int, name@, create).1),
            r matches Ok(c) ==> c < final(self).view().len(),
    {
        if !self.is_dir(cur) {
            return Err(FSError::simple(FSErrorKind::InvalidPath));
        }
        if create {
            Ok(self.ensure_dir(cur, name))
        } else {
            match self.dir_get(cur, name) {
                Some(i) => {
                    proof {
                        let e = pentries(self.view()[cur as int]);
                        lemma_entry_index(e, name@);
                        assert(e[entry_index(e, name@)].1 == i);
                    }
                    Ok(i)
                },
                None => Err(FSError::simple(FSErrorKind::NotFound)),
            }
        }
    }

    /// The node `path` leads to; see `proc_traverse`.
    pub fn traverse(&mut self, path: Path<'_>, create: bool) -> (r: FSResult<usize>)
        requires
            old(self).wf(),
        ensures
            final(self).wf(),
            final(self).view() == proc_traverse(old(self).view(), path@, create).0,
            res_agrees(r, proc_traverse(old(self).view(), path@, create).1),
            r matches Ok(c) ==> c < final(self).view().len(),
    {
        let parent = match path.parent() {
            None => return Ok(0),
            Some(p) => p,
        };
        let comps = parent.traverse();
        let ghost segs = split_on(parent@, sep()).skip(1);
        let ghost start = self.view();
        proof {
            crate::chars::lemma_split_on_nonempty(parent@, sep());
            assert(comps@.map_values(|x: &str| x@).len() == comps@.len());
            assert(segs.take(0) =~= Seq::<Seq<char>>::empty());
        }
        let mut cur: usize = 0;
        let mut j: usize = 1;
        while j < comps.len()
            invariant
                self.wf(),
                1 <= j <= comps@.len(),
                comps@.map_values(|x: &str| x@) == split_on(parent@, sep()),
                segs == split_on(parent@, sep()).skip(1),
                path_parent(path@) == Some(parent@),
                start == old(self).view(),
                cur < self.view().len(),
                proc_walk(start, segs.take(j - 1), create) == (self.view(), Ok::<int, FSErrorKind>(cur as int)),
            decreases comps@.len() - j,
        {
            let ghost before = self.view();
            let step = self.step(cur, comps[j], create);
            proof {
                assert(comps@.map_values(|x: &str| x@)[j as int] == comps@[j as int]@);
                assert(segs.take(j as int).drop_last() =~= segs.take(j - 1));
                assert(segs.take(j as int).last() == segs[j - 1]);
                assert(segs[j - 1] == comps@[j as int]@);
            }
            match step {
                Err(e) => {
                    proof {
                        lemma_proc_walk_err_sticks(start, segs, j as int, create);
                    }
                    return Err(e);
                },
                Ok(c) => {
                    if !self.is_dir(c) {
                        proof {
                            lemma_proc_walk_err_sticks(start, segs, j as int, create);
                        }
                        return Err(FSError::simple(FSErrorKind::InvalidPath));
                    }
                    cur = c;
                },
            }
            j = j + 1;
        }
        proof {
            assert(segs.take(comps@.len() - 1) =~= segs);
        }
        self.step(cur, path.file(), create)
    }

    /// A handle on node `n` carrying the permissions the options ask for,
    /// at offset zero.
    fn handle(n: usize, options: OpenOptions) -> (r: File)
        ensures
            r.node == n,
            r.perms@ == #[verifier::truncate] ((options@ & 15) as u8),
            r.cursor@ == 0,
            r.path is None,
    {
        let mut f = File::new(n);
        f.perms = FPerms::from_options(options);
        f
    }

    /// The entry `name` of directory `pd`, or the device registered under
    /// `path` filed there; see `get_or_update`.
    fn get_or_update(&mut self, pd: usize, path: Path<'_>, name: &str, reg: &DeviceRegistry) -> (r: FSResult<usize>)
        requires
            old(self).wf(),
            pd < old(self).view().len(),
            pis_dir(old(self).view()[pd as int]),
        ensures
            final(self).wf(),
            final(self).view() == get_or_update(old(self).view(), pd as int, path@, name@, reg@).0,
            res_agrees(r, get_or_update(old(self).view(), pd as int, path@, name@, reg@).1),
            r matches Ok(c) ==> c < final(self).view().len(),
    {
        match self.dir_get(pd, name) {
            Some(n) => {
                proof {
                    let e = pentries(self.view()[pd as int]);
                    lemma_entry_index(e, name@);
                    assert(e[entry_index(e, name@)].1 == n);
                }
                Ok(n)
            },
            None => {
                let entry = reg.get(path)?;
                let dev = entry.into_inner();
                Ok(self.add_device(pd, name.to_owned(), dev))
            },
        }
    }

    /// Opens `path`; see `proc_open_spec`. The handle carries the
    /// permissions the options ask for and starts at offset zero; for a
    /// device opened to append, moving it to the device's end is left to
    /// the holder of the device.
    pub fn open(&mut self, path: Path<'_>, options: OpenOptions, reg: &DeviceRegistry) -> (r: FSResult<File>)
        requires
            old(self).wf(),
        ensures
            final(self).wf(),
            final(self).view() == proc_open_spec(old(self).view(), path@, options@, reg@).0,
            match r {
                Ok(f) => proc_open_spec(old(self).view(), path@, options@, reg@).1 == Ok::<int, FSErrorKind>(f.node as int)
                    && f.node < final(self).view().len()
                    && f.perms@ == #[verifier::truncate] ((options@ & 15) as u8) && f.cursor@ == 0 && f.path is None,
                Err(e) => proc_open_spec(old(self).view(), path@, options@, reg@).1 == Err::<int, FSErrorKind>(e.kind_of()),
            },
    {
        let parent = match path.parent() {
            None => return Ok(Self::handle(0, options)),
            Some(p) => p,
        };
        let create_all = options.contains(OpenOptions::CREATE_ALL());
        let pd = self.traverse(parent, create_all)?;
        if !self.is_dir(pd) {
            return Err(FSError::simple(FSErrorKind::InvalidPath));
        }
        if ends_with_slash(path) {
            Ok(Self::handle(pd, options))
        } else if options.contains(OpenOptions::CREATE_DIR()) {
            let n = self.ensure_dir(pd, path.file());
            Ok(Self::handle(n, options))
        } else {
            let n = self.get_or_update(pd, path, path.file(), reg)?;
            Ok(Self::handle(n, options))
        }
    }

    /// Detaches the entry `name` from directory `pd`; see `proc_unlink_in`.
    fn unlink_in(&mut self, pd: usize, name: &str, options: UnlinkOptions) -> (r: FSResult<File>)
        requires
            old(self).wf(),
            pd < old(self).view().len(),
        ensures
            final(self).wf(),
            final(self).view() == proc_unlink_in(old(self).view(), pd as int, name@, options@).0,
            match r {
                Ok(f) => proc_unlink_in(old(self).view(), pd as int, name@, options@).1 == Ok::<int, FSErrorKind>(f.node as int)
                    && f.cursor@ == 0 && f.perms@ == 0 && f.path is None,
                Err(e) => proc_unlink_in(old(self).view(), pd as int, name@, options@).1 == Err::<int, FSErrorKind>(e.kind_of()),
            },
    {
        let ghost before = self.view();
        if !self.is_dir(pd) {
            return Err(FSError::simple(FSErrorKind::InvalidPath));
        }
        let c = match self.dir_get(pd, name) {
            None => return Err(FSError::simple(FSErrorKind::NotFound)),
            Some(c) => c,
        };
        let ghost e = pentries(before[pd as int]);
        proof {
            lemma_entry_index(e, name@);
            assert(e[entry_index(e, name@)].1 == c);
        }
        if self.is_dir(c) && !options.contains(UnlinkOptions::RECURSIVE()) {
            return Err(FSError::simple(FSErrorKind::PermissionDenied));
        }
        match &mut self.nodes[pd] {
            ProcNode::Dir(dd) => {
                assert(dd.view() == e);
                let _ = dd.swap_remove(name);
            },
            ProcNode::File(_) => {},
        }
        proof {
            let i = entry_index(e, name@);
            let target = before.update(pd as int, ProcView::Dir(swap_removed(e, i)));
            assert(self.view() =~= target) by {
                assert forall|j: int| 0 <= j < target.len() implies #[trigger] self.view()[j] == target[j] by {
                    if j == pd {
                        assert(self.view()[j] == self.nodes@[j].view());
                    }
                }
            }
            lemma_swap_removed(e, i);
            assert forall|d: int| 0 <= d < target.len() implies keys_unique(#[trigger] pentries(target[d])) by {
                if d != pd {
                    assert(pentries(target[d]) == pentries(before[d]));
                }
            }
            assert forall|d: int, k: int|
                0 <= d < target.len() && 0 <= k < pentries(target[d]).len() implies (#[trigger] pentries(
                target[d],
            )[k]).1 < target.len() by {
                if d != pd {
                    assert(pentries(target[d]) == pentries(before[d]));
                } else {
                    let w = choose|w: int| 0 <= w < e.len() && #[trigger] swap_removed(e, i)[k] == e[w];
                    assert(pentries(before[pd as int])[w] == e[w]);
                }
            }
        }
        Ok(File::new(c))
    }

    /// Unlinks `path`; see `proc_unlink_spec`. The handle returned refers to
    /// the node that was detached.
    pub fn unlink(&mut self, path: Path<'_>, options: UnlinkOptions) -> (r: FSResult<File>)
        requires
            old(self).wf(),
        ensures
            final(self).wf(),
            final(self).view() == proc_unlink_spec(old(self).view(), path@, options@).0,
            match r {
                Ok(f) => proc_unlink_spec(old(self).view(), path@, options@).1 == Ok::<int, FSErrorKind>(f.node as int)
                    && f.cursor@ == 0 && f.perms@ == 0 && f.path is None,
                Err(e) => proc_unlink_spec(old(self).view(), path@, options@).1 == Err::<int, FSErrorKind>(e.kind_of()),
            },
    {
        let pd = match path.parent() {
            Some(pp) => {
                if ends_with_slash(path) && !options.contains(UnlinkOptions::RECURSIVE()) {
                    return Err(FSError::simple(FSErrorKind::PermissionDenied));
                }
                self.traverse(pp, false)?
            },
            None => {
                let all = UnlinkOptions::NO_PRESERVE_ROOT().union(UnlinkOptions::FORCE()).union(
                    UnlinkOptions::RECURSIVE(),
                );
                assert(4u32 | 1u32 | 2u32 == 7u32) by (bit_vector);
                if options.contains(all) {
                    0
                } else {
                    return Err(FSError::simple(FSErrorKind::PermissionDenied));
                }
            },
        };
        self.unlink_in(pd, path.file(), options)
    }

    /// Flushes `path`: the path is reached, creating directories as needed,
    /// and must be a directory; each registered device whose path lies
    /// below it (see `flush_name`) is then filed there as a new node. The
    /// devices are taken in the order of the registry's table, which
    /// decides where each new node lands; `items` below is that order.
    pub fn flush(&mut self, path: Path<'_>, reg: &DeviceRegistry) -> (r: FSResult<()>)
        requires
            old(self).wf(),
        ensures
            final(self).wf(),
            exists|items: Seq<(Seq<char>, u64)>|
                enumerates(items, reg@) && final(self).view() == #[trigger] proc_flush_spec(old(self).view(), path@, items).0
                    && match r {
                    Ok(()) => proc_flush_spec(old(self).view(), path@, items).1 is Ok,
                    Err(e) => proc_flush_spec(old(self).view(), path@, items).1 == Err::<(), FSErrorKind>(e.kind_of()),
                },
    {
        let entries = table_entries(&reg.devices);
        let ghost items = entries@.map_values(|p: (String, u64)| (p.0@, p.1));
        let ghost start = self.view();
        let d = match self.traverse(path, true) {
            Ok(d) => d,
            Err(e) => {
                assert(proc_flush_spec(start, path@, items).0 == self.view());
                return Err(e);
            },
        };
        if !self.is_dir(d) {
            assert(proc_flush_spec(start, path@, items).0 == self.view());
            return Err(FSError::simple(FSErrorKind::NotADir));
        }
        let ghost f1 = self.view();
        let sanitize = ends_with_slash(path);
        let slash = Path::new("/");
        proof {
            reveal_strlit("/");
            assert(slash@ =~= seq![sep()]);
            assert(items.take(0) =~= Seq::<(Seq<char>, u64)>::empty());
        }
        let mut i: usize = 0;
        while i < entries.len()
            invariant
                self.wf(),
                d < self.view().len(),
                pis_dir(self.view()[d as int]),
                i <= entries@.len(),
                items == entries@.map_values(|p: (String, u64)| (p.0@, p.1)),
                slash@ == seq![sep()],
                sanitize == ends_with_sep(path@),
                self.view() == flush_items(f1, d as int, items.take(i as int), path@, sanitize),
            decreases entries@.len() - i,
        {
            let dev_path = Path::new(entries[i].0.as_str());
            let dev = entries[i].1;
            proof {
                assert(items.take(i + 1).drop_last() =~= items.take(i as int));
                assert(items.take(i + 1).last() == items[i as int]);
                assert(items[i as int] == (dev_path@, dev));
            }
            match dev_path.strip_prefix(path) {
                None => {},
                Some(post) => {
                    let name = if sanitize {
                        post.strip_prefix(slash)
                    } else {
                        Some(post)
                    };
                    match name {
                        None => {},
                        Some(name) => {
                            self.add_device(d, name.as_str().to_owned(), dev);
                        },
                    }
                },
            }
            i = i + 1;
        }
        proof {
            assert(items.take(entries@.len() as int) =~= items);
            assert(proc_flush_spec(start, path@, items).0 == self.view());
        }
        Ok(())
    }

    /// Reads node `n` into the front of `buf`: a directory gives as much of
    /// its listing, from the start, as fits (`offset` plays no part); a
    /// device file goes to its device.
    pub fn read_node(&self, n: usize, buf: &mut [u8], offset: usize) -> (r: ProcIO<usize>)
        requires
            n < self.view().len(),
        ensures
            match self.view()[n as int] {
                ProcView::Dir(e) => r == ProcIO::<usize>::Done(dir_display(names_of(e), 0, old(buf)@.len() as int).0.len() as usize)
                    && final(buf)@ == dir_display(names_of(e), 0, old(buf)@.len() as int).0 + old(buf)@.skip(
                    dir_display(names_of(e), 0, old(buf)@.len() as int).0.len() as int,
                ),
                ProcView::Device(dev) => r == ProcIO::<usize>::Device(dev) && final(buf)@ == old(buf)@,
            },
    {
        match &self.nodes[n] {
            ProcNode::Dir(d) => {
                let ghost before = buf@;
                let (k, _) = d.buffered_display(buf, 0);
                proof {
                    assert(buf@ =~= buf@.take(k as int) + buf@.skip(k as int));
                }
                ProcIO::Done(k)
            },
            ProcNode::File(dev) => ProcIO::Device(*dev),
        }
    }

    /// Writes to node `n`: a directory cannot be written; a device file
    /// goes to its device.
    pub fn write_node(&self, n: usize, buf: &[u8], offset: usize) -> (r: ProcIO<FSResult<usize>>)
        requires
            n < self.view().len(),
        ensures
            match self.view()[n as int] {
                ProcView::Dir(_) => r matches ProcIO::Done(Err(e)) && e.kind_of() == FSErrorKind::NotSupported,
                ProcView::Device(dev) => r == ProcIO::<FSResult<usize>>::Device(dev),
            },
    {
        match &self.nodes[n] {
            ProcNode::Dir(_) => ProcIO::Done(Err(FSError::simple(FSErrorKind::NotSupported))),
            ProcNode::File(dev) => ProcIO::Device(*dev),
        }
    }

    /// Reads node `n` to its end: a directory's whole listing is appended
    /// to `buf`; a device file goes to its device.
    pub fn node_to_end(&self, n: usize, buf: &mut Vec<u8>, offset: usize) -> (r: ProcIO<usize>)
        requires
            n < self.view().len(),
        ensures
            match self.view()[n as int] {
                ProcView::Dir(e) => r == ProcIO::<usize>::Done(listing_from(names_of(e), 0).len() as usize)
                    && final(buf)@ == old(buf)@ + listing_from(names_of(e), 0),
                ProcView::Device(dev) => r == ProcIO::<usize>::Device(dev) && final(buf)@ == old(buf)@,
            },
    {
        match &self.nodes[n] {
            ProcNode::Dir(d) => {
                let all = d.listing();
                append_bytes(buf, all.as_slice(), 0);
                proof {
                    assert(all@.skip(0) =~= all@);
                }
                ProcIO::Done(all.len())
            },
            ProcNode::File(dev) => ProcIO::Device(*dev),
        }
    }

    /// The status of node `n`: a directory's is all zero; a device file's
    /// is its device's.
    pub fn fstat(&self, n: usize) -> (r: ProcIO<FStat>)
        requires
            n < self.view().len(),
        ensures
            match self.view()[n as int] {
                ProcView::Dir(_) => r == ProcIO::<FStat>::Done(FStat { t_create: 0, t_mod: 0, size: 0 }),
                ProcView::Device(dev) => r == ProcIO::<FStat>::Device(dev),
            },
    {
        match &self.nodes[n] {
            ProcNode::Dir(_) => ProcIO::Done(FStat::default()),
            ProcNode::File(dev) => ProcIO::Device(*dev),
        }
    }

    /// Files a new node for device `dev` under `name` in directory `d`.
    fn add_device(&mut self, d: usize, name: String, dev: u64) -> (r: usize)
        requires
            old(self).wf(),
            d < old(self).view().len(),
            pis_dir(old(self).view()[d as int]),
        ensures
            final(self).wf(),
            final(self).view() == add_device(old(self).view(), d as int, name@, dev),
            r == old(self).view().len(),
    {
        let ghost old_view = self.view();
        let ghost key = name@;
        let idx = self.nodes.len();
        self.dir_insert(d, name, idx);
        self.nodes.push(ProcNode::File(dev));
        let _total = self.nodes.len();
        proof {
            assert(self.view() =~= add_device(old_view, d as int, key, dev));
            lemma_add_device_wf(old_view, d as int, key, dev);
        }
        idx
    }
}

/// The bytes of the text "ProcFS", what reading the file system itself gives.
pub open spec fn procfs_label() -> Seq<u8> {
    seq![80u8, 114u8, 111u8, 99u8, 70u8, 83u8]
}

impl ProcFS {
    /// The status of the file system itself: fresh, stamped with the time
    /// `now`, of size zero.
    pub fn stat(&self, now: u64) -> (r: FStat)
        ensures
            r == (FStat { t_create: now, t_mod: now, size: 0 }),
    {
        FStat::new(now)
    }

    /// The file system itself is a mount.
    pub fn kind(&self) -> (r: NodeType)
        ensures
            r == NodeType::Mount,
    {
        NodeType::Mount
    }
}

impl Read for ProcFS {
    /// Reading the file system itself gives as much of "ProcFS" as fits,
    /// whatever the offset.
    fn read(&mut self, buf: &mut [u8], offset: usize) -> (r: FSResult<usize>)
        ensures
            final(self).view() == old(self).view(),
            r == Ok::<usize, FSError>(if old(buf)@.len() < 6 { old(buf)@.len() as usize } else { 6 }),
            final(buf)@ == procfs_label().take(if old(buf)@.len() < 6 { old(buf)@.len() as int } else { 6 })
                + old(buf)@.skip(if old(buf)@.len() < 6 { old(buf)@.len() as int } else { 6 }),
    {
        let bytes: Vec<u8> = vec![80u8, 114u8, 111u8, 99u8, 70u8, 83u8];
        let len = if buf.len() < bytes.len() {
            buf.len()
        } else {
            bytes.len()
        };
        copy_window(buf, bytes.as_slice(), 0, len);
        proof {
            assert(bytes@ == procfs_label());
            assert(bytes@.subrange(0, len as int) =~= procfs_label().take(len as int));
            assert(buf@ =~= buf@.take(len as int) + buf@.skip(len as int));
        }
        Ok(len)
    }
}

impl Write for ProcFS {
    /// The file system itself cannot be written.
    fn write(&mut self, buf: &[u8], offset: usize) -> (r: FSResult<usize>)
        ensures
            final(self).view() == old(self).view(),
            r matches Err(e) && e.kind_of() == FSErrorKind::NotSupported,
    {
        Err(FSError::simple(FSErrorKind::NotSupported))
    }
}

/// A device that can be neither read nor written.
#[derive(Debug, Default, Clone, Copy)]
pub struct Null;

impl Null {
    /// The status of the device: fresh, stamped with the time `now`, of
    /// size zero.
    pub fn fstat(&self, now: u64) -> (r: FStat)
        ensures
            r == (FStat { t_create: now, t_mod: now, size: 0 }),
    {
        FStat::new(now)
    }

    /// The device is no kind of node.
    pub fn node_type(&self) -> (r: NodeType)
        ensures
            r == NodeType::Void,
    {
        NodeType::Void
    }
}

impl Read for Null {
    fn read(&mut self, buf: &mut [u8], offset: usize) -> (r: FSResult<usize>)
        ensures
            final(buf)@ == old(buf)@,
            r matches Err(e) && e.kind_of() == FSErrorKind::NotSupported,
    {
        Err(FSError::simple(FSErrorKind::NotSupported))
    }
}

impl Write for Null {
    fn write(&mut self, buf: &[u8], offset: usize) -> (r: FSResult<usize>)
        ensures
            r matches Err(e) && e.kind_of() == FSErrorKind::NotSupported,
    {
        Err(FSError::simple(FSErrorKind::NotSupported))
    }
}

} // verus!
