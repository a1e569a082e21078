//! An in-memory file system: a tree of directories, files and symbolic
//! links, each node with read/write/execute permissions.
//!
//! Nodes live in an arena and are named by their position in it; node 0 is
//! the root directory. Unlinking detaches a node from its directory.
use hashbrown::DefaultHashBuilder;
use indexmap::IndexMap;
use vstd::prelude::*;
use vstd::utf8::{decode_utf8, encode_utf8, valid_utf8};
use vstd::string::StringSliceAdditionalSpecFns;
use vstd::slice::SliceAdditionalExecFns;
use vstd::string::StrSliceExecFns;

use crate::chars::split_on;
use crate::dirmap::{
    dir_entries, has_key, map_entry_at, map_get, map_insert, map_len, map_new, map_swap_remove,
};
use crate::fd::{FCursor, FPerms, FStat, File, has_perm};
use crate::fs::{FSError, FSErrorKind, FSResult, NodeType, OpenOptions, UnlinkOptions};
use crate::path::{Path, PathBuf, path_file, path_parent, sep};

verus! {

/// Read, write and execute permission bits of a node.
#[derive(Debug, Clone, Copy, PartialEq, Eq, Structural)]
pub struct NodePermissions {
    bits: u8,
}

impl View for NodePermissions {
    type V = u8;

    closed spec fn view(&self) -> u8 {
        self.bits
    }
}

pub open spec fn perm_r(p: u8) -> bool {
    p & 1 == 1
}

pub open spec fn perm_w(p: u8) -> bool {
    p & 2 == 2
}

pub open spec fn perm_x(p: u8) -> bool {
    p & 4 == 4
}

impl NodePermissions {
    pub fn from_bits_retain(bits: u8) -> (r: Self)
        ensures
            r@ == bits,
    {
        Self { bits }
    }

    pub fn rwx() -> (r: Self)
        ensures
            r@ == 7,
    {
        Self { bits: 7 }
    }

    pub fn rw() -> (r: Self)
        ensures
            r@ == 3,
    {
        Self { bits: 3 }
    }

    pub fn r(&self) -> (b: bool)
        ensures
            b == perm_r(self@),
    {
        self.bits & 1 == 1
    }

    pub fn w(&self) -> (b: bool)
        ensures
            b == perm_w(self@),
    {
        self.bits & 2 == 2
    }

    pub fn x(&self) -> (b: bool)
        ensures
            b == perm_x(self@),
    {
        self.bits & 4 == 4
    }
}

/// How `update_perms` combines the new permissions with the old ones.
#[derive(Debug, Clone, Copy, PartialEq, Eq, Structural)]
pub enum PermUpdateStrategy {
    AND,
    OR,
    OVERWRITE,
}

/// A directory: its entries, by name, in insertion order.
pub struct DirData {
    inner: IndexMap<String, usize, DefaultHashBuilder>,
}

/// What a node holds.
pub enum RamNode {
    SoftLink(PathBuf),
    File(Vec<u8>),
    Dir(DirData),
}

/// A node: its contents, permissions and status.
pub struct RamFile {
    node: RamNode,
    perms: NodePermissions,
    stat: FStat,
}

/// The contents of a node, as plain values.
pub enum NodeView {
    Link(Seq<char>),
    File(Seq<u8>),
    Dir(Seq<(Seq<char>, usize)>),
}

/// A node, as plain values.
pub struct FileView {
    pub node: NodeView,
    pub perms: u8,
    pub stat: FStat,
}

impl RamFile {
    pub closed spec fn view(&self) -> FileView {
        FileView {
            node: match self.node {
                RamNode::SoftLink(p) => NodeView::Link(p@),
                RamNode::File(d) => NodeView::File(d@),
                RamNode::Dir(d) => NodeView::Dir(dir_entries(d.inner)),
            },
            perms: self.perms@,
            stat: self.stat,
        }
    }
}

/// The in-memory file system.
pub struct RamFS {
    nodes: Vec<RamFile>,
}

pub open spec fn entries_of(f: FileView) -> Seq<(Seq<char>, usize)> {
    match f.node {
        NodeView::Dir(e) => e,
        _ => Seq::empty(),
    }
}

pub open spec fn is_dir(f: FileView) -> bool {
    f.node is Dir
}

/// Position of the first entry named `name`, or -1.
pub open spec fn entry_index(e: Seq<(Seq<char>, usize)>, name: Seq<char>) -> int
    decreases e.len(),
{
    if e.len() == 0 {
        -1
    } else if e[0].0 == name {
        0
    } else {
        let r = entry_index(e.drop_first(), name);
        if r < 0 {
            -1
        } else {
            r + 1
        }
    }
}

/// The node filed under `name`.
pub open spec fn lookup(e: Seq<(Seq<char>, usize)>, name: Seq<char>) -> Option<usize> {
    let i = entry_index(e, name);
    if i < 0 {
        None
    } else {
        Some(e[i].1)
    }
}

pub open spec fn keys_unique(e: Seq<(Seq<char>, usize)>) -> bool {
    forall|i: int, j: int| 0 <= i < e.len() && 0 <= j < e.len() && i != j ==> e[i].0 != e[j].0
}

/// The arena is well formed: it has a root directory, every directory
/// entry names a node of the arena, and no directory repeats a name.
pub open spec fn fs_wf(fs: Seq<FileView>) -> bool {
    &&& 1 <= fs.len() <= usize::MAX
    &&& is_dir(fs[0])
    &&& forall|d: int, i: int|
        0 <= d < fs.len() && 0 <= i < entries_of(fs[d]).len() ==> (#[trigger] entries_of(
            fs[d],
        )[i]).1 < fs.len()
    &&& forall|d: int| 0 <= d < fs.len() ==> keys_unique(#[trigger] entries_of(fs[d]))
}

pub open spec fn new_stat(now: u64) -> FStat {
    FStat { t_create: now, t_mod: now, size: 0 }
}

pub open spec fn fresh_dir(now: u64) -> FileView {
    FileView { node: NodeView::Dir(Seq::empty()), perms: 7, stat: new_stat(now) }
}

pub open spec fn fresh_file(now: u64) -> FileView {
    FileView { node: NodeView::File(Seq::empty()), perms: 3, stat: new_stat(now) }
}

pub open spec fn fresh_link(now: u64) -> FileView {
    FileView { node: NodeView::Link(Seq::empty()), perms: 3, stat: new_stat(now) }
}

/// The entry `name` of directory `d`, created from `fresh` when missing.
pub open spec fn ensure(fs: Seq<FileView>, d: int, name: Seq<char>, fresh: FileView) -> (
    Seq<FileView>,
    int,
) {
    match lookup(entries_of(fs[d]), name) {
        Some(i) => (fs, i as int),
        None => (
            fs.update(
                d,
                FileView {
                    node: NodeView::Dir(entries_of(fs[d]).push((name, fs.len() as usize))),
                    perms: fs[d].perms,
                    stat: fs[d].stat,
                },
            ).push(fresh),
            fs.len() as int,
        ),
    }
}

/// Entering `name` under `cur` while creating what is missing: the directory
/// must be writable.
pub open spec fn step_create(fs: Seq<FileView>, cur: int, name: Seq<char>, now: u64) -> (
    Seq<FileView>,
    Result<int, FSErrorKind>,
) {
    if !perm_w(fs[cur].perms) {
        (fs, Err(FSErrorKind::PermissionDenied))
    } else if !is_dir(fs[cur]) {
        (fs, Err(FSErrorKind::InvalidPath))
    } else {
        let (f, i) = ensure(fs, cur, name, fresh_dir(now));
        (f, Ok(i))
    }
}

/// Looking `name` up under `cur`.
pub open spec fn step_get(fs: Seq<FileView>, cur: int, name: Seq<char>) -> Result<
    int,
    FSErrorKind,
> {
    if !is_dir(fs[cur]) {
        Err(FSErrorKind::InvalidPath)
    } else {
        match lookup(entries_of(fs[cur]), name) {
            Some(i) => Ok(i as int),
            None => Err(FSErrorKind::NotFound),
        }
    }
}

/// One intermediate component: the child must be a directory one may enter.
pub open spec fn walk_step(
    fs: Seq<FileView>,
    cur: int,
    name: Seq<char>,
    create_all: bool,
    now: u64,
) -> (Seq<FileView>, Result<int, FSErrorKind>) {
    let (f, r) = if create_all {
        step_create(fs, cur, name, now)
    } else {
        (fs, step_get(fs, cur, name))
    };
    match r {
        Err(e) => (f, Err(e)),
        Ok(c) => if !is_dir(f[c]) {
            (f, Err(FSErrorKind::InvalidPath))
        } else if !perm_x(f[c].perms) {
            (f, Err(FSErrorKind::PermissionDenied))
        } else {
            (f, Ok(c))
        },
    }
}

/// Walking the components from the root.
pub open spec fn walk(fs: Seq<FileView>, comps: Seq<Seq<char>>, create_all: bool, now: u64) -> (
    Seq<FileView>,
    Result<int, FSErrorKind>,
)
    decreases comps.len(),
{
    if comps.len() == 0 {
        (fs, Ok(0))
    } else {
        let (f, r) = walk(fs, comps.drop_last(), create_all, now);
        match r {
            Err(e) => (f, Err(e)),
            Ok(c) => walk_step(f, c, comps.last(), create_all, now),
        }
    }
}

/// The node a path leads to: the root for a path without `/`; otherwise the
/// directories of its parent are entered in turn (created with `create_all`)
/// and the last component is looked up (or created) there.
pub open spec fn traverse_spec(fs: Seq<FileView>, path: Seq<char>, create_all: bool, now: u64) -> (
    Seq<FileView>,
    Result<int, FSErrorKind>,
) {
    match path_parent(path) {
        None => (fs, Ok(0)),
        Some(parent) => {
            let (f, r) = walk(fs, split_on(parent, sep()).skip(1), create_all, now);
            match r {
                Err(e) => (f, Err(e)),
                Ok(c) => if create_all {
                    step_create(f, c, path_file(path), now)
                } else {
                    (f, step_get(f, c, path_file(path)))
                },
            }
        },
    }
}

/// Clearing a node: only a file can be cleared; it becomes empty and is
/// stamped with the time.
pub open spec fn clear_spec(fs: Seq<FileView>, n: int, now: u64) -> (
    Seq<FileView>,
    Result<(), FSErrorKind>,
) {
    match fs[n].node {
        NodeView::File(_) => (
            fs.update(
                n,
                FileView {
                    node: NodeView::File(Seq::empty()),
                    perms: fs[n].perms,
                    stat: FStat { t_create: fs[n].stat.t_create, t_mod: now, size: 0 },
                },
            ),
            Ok(()),
        ),
        _ => (fs, Err(FSErrorKind::NotSupported)),
    }
}

/// A handle opened with some options: its permissions come from the
/// options; appending starts at the end, and writing with truncation
/// clears the node and starts at zero.
pub open spec fn with_perms_spec(fs: Seq<FileView>, n: int, options: u32, now: u64) -> (
    Seq<FileView>,
    u8,
    usize,
) {
    let p = #[verifier::truncate] ((options & 15) as u8);
    let c = if has_perm(p, 4) {
        fs[n].stat.size
    } else {
        0
    };
    if has_perm(p, 10) {
        (clear_spec(fs, n, now).0, p, 0)
    } else {
        (fs, p, c)
    }
}

/// Whether the options ask for something the permissions do not grant.
pub open spec fn perms_refuse(options: u32, perms: u8) -> bool {
    (options & 1 == 1 && !perm_r(perms)) || (options & 2 == 2 && !perm_w(perms)) || (options & 512
        == 512 && !perm_x(perms))
}

/// The outcome of opening a path.
pub enum OpenView {
    Node { node: int, perms: u8, cursor: usize },
    Link(Seq<char>),
}

pub open spec fn ends_with_sep(path: Seq<char>) -> bool {
    path.len() > 0 && path.last() == sep()
}

/// Opening node `n` with the options, unless its permissions refuse them.
pub open spec fn open_node(fs: Seq<FileView>, n: int, options: u32, now: u64) -> (
    Seq<FileView>,
    Result<OpenView, FSErrorKind>,
) {
    if perms_refuse(options, fs[n].perms) {
        (fs, Err(FSErrorKind::PermissionDenied))
    } else {
        let (f, p, c) = with_perms_spec(fs, n, options, now);
        (f, Ok(OpenView::Node { node: n, perms: p, cursor: c }))
    }
}

/// Opening the entry of `path` in the directory `pd` its parent led to:
/// see the cases below, in order.
pub open spec fn open_in_dir(fs: Seq<FileView>, pd: int, path: Seq<char>, options: u32, now: u64) -> (
    Seq<FileView>,
    Result<OpenView, FSErrorKind>,
) {
    let name = path_file(path);
    if !is_dir(fs[pd]) {
        (fs, Err(FSErrorKind::InvalidPath))
    } else if !perm_x(fs[pd].perms) {
        (fs, Err(FSErrorKind::PermissionDenied))
    } else if options & 240 != 0 && lookup(entries_of(fs[pd]), name) is None && !perm_w(
        fs[pd].perms,
    ) {
        (fs, Err(FSErrorKind::PermissionDenied))
    } else if ends_with_sep(path) {
        open_node(fs, pd, options, now)
    } else if options & 32 == 32 {
        let (f2, n) = ensure(fs, pd, name, fresh_dir(now));
        open_node(f2, n, options, now)
    } else if options & 128 == 128 {
        let (f2, n) = ensure(fs, pd, name, fresh_link(now));
        open_node(f2, n, options, now)
    } else if options & 80 != 0 {
        let (f2, n) = ensure(fs, pd, name, fresh_file(now));
        open_node(f2, n, options, now)
    } else {
        match lookup(entries_of(fs[pd]), name) {
            None => (fs, Err(FSErrorKind::NotFound)),
            Some(n) => match fs[n as int].node {
                NodeView::Link(target) => if options & 256 != 256 {
                    (fs, Ok(OpenView::Link(target)))
                } else {
                    open_node(fs, n as int, options, now)
                },
                _ => open_node(fs, n as int, options, now),
            },
        }
    }
}

/// Opening a path: the root for a path without `/`; otherwise the parent
/// directory is reached (creating the way with `CREATE_ALL`) and the entry
/// opened there.
pub open spec fn open_spec(fs: Seq<FileView>, path: Seq<char>, options: u32, now: u64) -> (
    Seq<FileView>,
    Result<OpenView, FSErrorKind>,
) {
    match path_parent(path) {
        None => {
            let (f, p, c) = with_perms_spec(fs, 0, options, now);
            (f, Ok(OpenView::Node { node: 0, perms: p, cursor: c }))
        },
        Some(parent) => {
            let (f1, r1) = traverse_spec(fs, parent, options & 64 == 64, now);
            match r1 {
                Err(e) => (f1, Err(e)),
                Ok(pd) => open_in_dir(f1, pd, path, options, now),
            }
        },
    }
}

/// The bytes a listing gives for one name: the name, then a tab.
pub open spec fn entry_bytes(name: Seq<char>) -> Seq<u8> {
    encode_utf8(name).push(9u8)
}

/// The names of a directory's entries, in order.
pub open spec fn names_of(e: Seq<(Seq<char>, usize)>) -> Seq<Seq<char>> {
    e.map_values(|x: (Seq<char>, usize)| x.0)
}

/// A listing of names, read from name `i` on into a buffer of `cap` bytes
/// that already holds `out`: whole names are skipped until `to_skip` bytes
/// have been passed, then whole names are copied while they fit. The flag
/// tells whether the listing was read to its end.
pub open spec fn dir_display_from(
    names: Seq<Seq<char>>,
    i: int,
    to_skip: int,
    out: Seq<u8>,
    cap: int,
) -> (Seq<u8>, bool)
    decreases names.len() - i,
{
    if i < 0 || i >= names.len() {
        (out, true)
    } else {
        let b = entry_bytes(names[i]);
        if to_skip > 0 {
            dir_display_from(names, i + 1, if b.len() >= to_skip { 0 } else { to_skip - b.len() }, out, cap)
        } else if out.len() + b.len() > cap {
            (out, false)
        } else {
            dir_display_from(names, i + 1, 0, out + b, cap)
        }
    }
}

/// A listing of names read at `offset` into `cap` bytes.
pub open spec fn dir_display(names: Seq<Seq<char>>, offset: int, cap: int) -> (Seq<u8>, bool) {
    dir_display_from(names, 0, offset, Seq::empty(), cap)
}

/// The bytes from `offset` on, as many as fit in `cap`; reading past the
/// end fails.
pub open spec fn window(b: Seq<u8>, offset: int, cap: int) -> Result<Seq<u8>, FSErrorKind> {
    if offset > b.len() {
        Err(FSErrorKind::UnexpectedEOF)
    } else {
        let n = if b.len() - offset < cap { b.len() - offset } else { cap };
        Ok(b.subrange(offset, offset + n))
    }
}

/// What reading a node at `offset` into a buffer of `cap` bytes puts at the
/// front of the buffer: a file's bytes, a link's target encoded as UTF-8, or
/// a directory's listing.
pub open spec fn read_spec(f: FileView, offset: int, cap: int) -> Result<Seq<u8>, FSErrorKind> {
    match f.node {
        NodeView::Link(t) => window(encode_utf8(t), offset, cap),
        NodeView::File(d) => window(d, offset, cap),
        NodeView::Dir(e) => Ok(dir_display(names_of(e), offset, cap).0),
    }
}

/// `d` with `data` written at `offset`, zero-filled up to `offset` when the
/// write starts past the end.
pub open spec fn overwrite(d: Seq<u8>, data: Seq<u8>, offset: int) -> Seq<u8> {
    let end = offset + data.len();
    let grown = if end > d.len() { d + Seq::new((end - d.len()) as nat, |k: int| 0u8) } else { d };
    grown.subrange(0, offset) + data + grown.subrange(end, grown.len() as int)
}

/// Writing `data` to node `n` at `offset`: a file takes the bytes, a link
/// takes them as its new target when they are valid UTF-8, a directory
/// refuses; a successful write stamps the node with the time.
pub open spec fn write_spec(fs: Seq<FileView>, n: int, data: Seq<u8>, offset: int, now: u64) -> (
    Seq<FileView>,
    Result<usize, FSErrorKind>,
) {
    let f = fs[n];
    match f.node {
        NodeView::Link(_) => if valid_utf8(data) {
            (
                fs.update(
                    n,
                    FileView {
                        node: NodeView::Link(decode_utf8(data)),
                        perms: f.perms,
                        stat: FStat { t_create: f.stat.t_create, t_mod: now, size: f.stat.size },
                    },
                ),
                Ok(data.len() as usize),
            )
        } else {
            (fs, Err(FSErrorKind::InvalidPath))
        },
        NodeView::Dir(_) => (fs, Err(FSErrorKind::NotSupported)),
        NodeView::File(d) => {
            let d2 = overwrite(d, data, offset);
            (
                fs.update(
                    n,
                    FileView {
                        node: NodeView::File(d2),
                        perms: f.perms,
                        stat: FStat { t_create: f.stat.t_create, t_mod: now, size: d2.len() as usize },
                    },
                ),
                Ok(data.len() as usize),
            )
        },
    }
}

/// A directory's entries after `swap_remove` of entry `i`: the last entry
/// takes its place.
pub open spec fn swap_removed(e: Seq<(Seq<char>, usize)>, i: int) -> Seq<(Seq<char>, usize)> {
    e.update(i, e.last()).drop_last()
}

/// Unlinking the entry of `path` from directory `pd`: the directory must be
/// writable and enterable; a directory entry goes only with `RECURSIVE`, and
/// a path ending in `/` cannot name a file or link. The node that was
/// detached is the result.
pub open spec fn unlink_in_dir(fs: Seq<FileView>, pd: int, path: Seq<char>, options: u32) -> (
    Seq<FileView>,
    Result<int, FSErrorKind>,
) {
    let e = entries_of(fs[pd]);
    let name = path_file(path);
    if !perm_w(fs[pd].perms) || !perm_x(fs[pd].perms) {
        (fs, Err(FSErrorKind::PermissionDenied))
    } else if !is_dir(fs[pd]) {
        (fs, Err(FSErrorKind::InvalidPath))
    } else {
        match lookup(e, name) {
            None => (fs, Err(FSErrorKind::NotFound)),
            Some(c) => if is_dir(fs[c as int]) && options & 2 != 2 {
                (fs, Err(FSErrorKind::IsADir))
            } else if !is_dir(fs[c as int]) && ends_with_sep(path) {
                (fs, Err(FSErrorKind::NotADir))
            } else {
                (
                    fs.update(
                        pd,
                        FileView {
                            node: NodeView::Dir(swap_removed(e, entry_index(e, name))),
                            perms: fs[pd].perms,
                            stat: fs[pd].stat,
                        },
                    ),
                    Ok(c as int),
                )
            },
        }
    }
}

/// Unlinking a path: its parent directory is reached without creating
/// anything; a path without `/` has the root as parent, and only with
/// `NO_PRESERVE_ROOT`, `FORCE` and `RECURSIVE` together.
pub open spec fn unlink_spec(fs: Seq<FileView>, path: Seq<char>, options: u32) -> (
    Seq<FileView>,
    Result<int, FSErrorKind>,
) {
    let (f1, r1) = match path_parent(path) {
        Some(pp) => traverse_spec(fs, pp, false, 0),
        None => if options & 7 == 7 {
            (fs, Ok(0int))
        } else {
            (fs, Err(FSErrorKind::PermissionDenied))
        },
    };
    match r1 {
        Err(e) => (f1, Err(e)),
        Ok(pd) => unlink_in_dir(f1, pd, path, options),
    }
}

/// Permissions after an update with the given strategy.
pub open spec fn updated_perms(cur: u8, new: u8, strategy: PermUpdateStrategy) -> u8 {
    match strategy {
        PermUpdateStrategy::AND => cur & new,
        PermUpdateStrategy::OR => cur | new,
        PermUpdateStrategy::OVERWRITE => new,
    }
}

/// A read's result and buffer agree with what the spec says it reads.
pub open spec fn read_agrees(
    r: FSResult<usize>,
    before: Seq<u8>,
    after: Seq<u8>,
    s: Result<Seq<u8>, FSErrorKind>,
) -> bool {
    &&& after.len() == before.len()
    &&& match s {
        Ok(bytes) => r == Ok::<usize, FSError>(bytes.len() as usize) && after.take(bytes.len() as int)
            == bytes && after.skip(bytes.len() as int) == before.skip(bytes.len() as int),
        Err(k) => r matches Err(e) && e.kind_of() == k && after == before,
    }
}

/// A write's result agrees with what the spec says it returns.
pub open spec fn write_agrees(r: FSResult<usize>, s: Result<usize, FSErrorKind>) -> bool {
    match r {
        Ok(n) => s == Ok::<usize, FSErrorKind>(n),
        Err(e) => s == Err::<usize, FSErrorKind>(e.kind_of()),
    }
}

/// What reading through a handle with permissions `perms` gives: reading
/// needs read or write permission.
pub open spec fn handle_read_spec(perms: u8, f: FileView, offset: int, cap: int) -> Result<
    Seq<u8>,
    FSErrorKind,
> {
    if has_perm(perms, 1) || has_perm(perms, 2) {
        read_spec(f, offset, cap)
    } else {
        Err(FSErrorKind::PermissionDenied)
    }
}

/// What writing through a handle with permissions `perms` does: writing
/// needs write permission.
pub open spec fn handle_write_spec(
    perms: u8,
    fs: Seq<FileView>,
    n: int,
    data: Seq<u8>,
    offset: int,
    now: u64,
) -> (Seq<FileView>, Result<usize, FSErrorKind>) {
    if has_perm(perms, 2) {
        write_spec(fs, n, data, offset, now)
    } else {
        (fs, Err(FSErrorKind::PermissionDenied))
    }
}

/// Where a handle's cursor goes after a read or write gave `r`.
pub open spec fn cursor_after(cursor: usize, r: FSResult<usize>) -> usize {
    match r {
        Ok(n) => vstd::wrapping::usize_specs::wrapping_add(cursor, n),
        Err(_) => cursor,
    }
}

/// What reading a node to its end at `offset` gives: a link's target from
/// `offset` on and a directory's whole listing are appended to the buffer;
/// a file's bytes from `offset` on are written to the front of the buffer,
/// which grows as needed. Reading from past the end fails.
pub open spec fn read_to_end_ok(f: FileView, offset: int, before: Seq<u8>, after: Seq<u8>, n: int) -> bool {
    match f.node {
        NodeView::Link(t) => offset <= encode_utf8(t).len() && n == encode_utf8(t).len() - offset
            && after == before + encode_utf8(t).skip(offset),
        NodeView::Dir(e) => n == listing_from(names_of(e), 0).len() && after == before + listing_from(names_of(e), 0),
        NodeView::File(d) => offset <= d.len() && n == d.len() - offset && after.len() >= n
            && after.len() >= before.len() && after.take(n) == d.skip(offset)
            && forall|j: int| n <= j < after.len() ==> #[trigger] after[j] == (if j < before.len() { before[j] } else { 0u8 }),
    }
}

/// Reading to the end fails exactly when it starts past the end of a link or file.
pub open spec fn read_to_end_fails(f: FileView, offset: int) -> bool {
    match f.node {
        NodeView::Link(t) => offset > encode_utf8(t).len(),
        NodeView::Dir(_) => false,
        NodeView::File(d) => offset > d.len(),
    }
}

/// What opening a path gave.
pub enum Opened {
    /// A handle on a node of this file system.
    File(File),
    /// The path names a symbolic link, to be followed from the top: this is its target.
    FollowLink(PathBuf),
}

/// The first `count` bytes of `all` as text, when they are valid UTF-8.
pub fn text_prefix(all: &Vec<u8>, count: usize) -> (r: Option<&str>)
    requires
        count <= all@.len(),
    ensures
        r is Some <==> valid_utf8(all@.take(count as int)),
        r matches Some(s) ==> s@ == decode_utf8(all@.take(count as int)),
{
    let head = vstd::slice::slice_subrange(all.as_slice(), 0, count);
    proof {
        assert(head@ =~= all@.take(count as int));
    }
    str_from_utf8(head)
}

/// `core::str::from_utf8`: the text the bytes encode, when they are valid UTF-8.
#[verifier::external_body]
fn str_from_utf8(bytes: &[u8]) -> (r: Option<&str>)
    ensures
        r is Some <==> valid_utf8(bytes@),
        r matches Some(s) ==> s@ == decode_utf8(bytes@),
{
    core::str::from_utf8(bytes).ok()
}

/// Copies `src[from..from + len]` to the front of `buf`.
pub(crate) fn copy_window(buf: &mut [u8], src: &[u8], from: usize, len: usize)
    requires
        len <= old(buf)@.len(),
        from + len <= src@.len(),
    ensures
        final(buf)@.len() == old(buf)@.len(),
        final(buf)@.take(len as int) == src@.subrange(from as int, from + len),
        final(buf)@.skip(len as int) == old(buf)@.skip(len as int),
{
    let ghost orig = buf@;
    let sl = src.len();
    let mut k: usize = 0;
    while k < len
        invariant
            k <= len,
            len <= orig.len(),
            sl == src@.len(),
            from + len <= sl,
            buf@.len() == orig.len(),
            buf@.take(k as int) == src@.subrange(from as int, from + k),
            buf@.skip(k as int) == orig.skip(k as int),
        decreases len - k,
    {
        let ghost prev = buf@;
        buf[k] = src[from + k];
        proof {
            assert(buf@.take(k + 1) =~= src@.subrange(from as int, from + k + 1)) by {
                assert forall|j: int| 0 <= j < k implies buf@[j] == prev.take(k as int)[j] by {}
            }
            assert forall|j: int| 0 <= j < buf@.skip(k + 1).len() implies #[trigger] buf@.skip(k + 1)[j]
                == orig.skip(k + 1)[j] by {
                assert(prev.skip(k as int)[j + 1] == orig.skip(k as int)[j + 1]);
            }
            assert(buf@.skip(k + 1) =~= orig.skip(k + 1));
        }
        k = k + 1;
    }
}

/// What remains to skip after passing a name of `len` bytes and its tab.
pub fn skip_entry(to_skip: usize, len: usize) -> (r: usize)
    requires
        to_skip > 0,
    ensures
        r == (if len + 1 >= to_skip { 0 } else { to_skip - len - 1 }),
{
    if len >= to_skip - 1 {
        0
    } else {
        to_skip - len - 1
    }
}

/// Appends `src[from..]` to `buf`.
pub fn append_bytes(buf: &mut Vec<u8>, src: &[u8], from: usize)
    requires
        from <= src@.len(),
    ensures
        final(buf)@ == old(buf)@ + src@.skip(from as int),
{
    let ghost orig = buf@;
    let n = src.len();
    let mut k: usize = from;
    while k < n
        invariant
            n == src@.len(),
            from <= k <= n,
            buf@ == orig + src@.subrange(from as int, k as int),
        decreases n - k,
    {
        buf.push(src[k]);
        proof {
            assert(buf@ =~= orig + src@.subrange(from as int, k + 1));
        }
        k = k + 1;
    }
    proof {
        assert(src@.subrange(from as int, n as int) =~= src@.skip(from as int));
    }
}

/// Sequences that agree from `k` on agree from any later `m` on.
pub proof fn lemma_skip_more(a: Seq<u8>, b: Seq<u8>, k: int, m: int)
    requires
        0 <= k <= m <= a.len(),
        a.len() == b.len(),
        a.skip(k) == b.skip(k),
    ensures
        a.skip(m) == b.skip(m),
{
    assert forall|j: int| 0 <= j < a.skip(m).len() implies #[trigger] a.skip(m)[j] == b.skip(m)[j] by {
        assert(a.skip(k)[j + m - k] == b.skip(k)[j + m - k]);
    }
    assert(a.skip(m) =~= b.skip(m));
}

/// Writes `bytes` and a tab into `buf` at `at`.
pub fn put_entry(buf: &mut [u8], at: usize, bytes: &[u8])
    requires
        at + bytes@.len() < old(buf)@.len(),
    ensures
        final(buf)@.len() == old(buf)@.len(),
        final(buf)@.take(at + bytes@.len() + 1) == old(buf)@.take(at as int) + bytes@.push(9u8),
        final(buf)@.skip(at + bytes@.len() + 1) == old(buf)@.skip(at + bytes@.len() + 1),
{
    let ghost before = buf@;
    let cap = buf.len();
    let len = bytes.len();
    let mut k: usize = 0;
    while k < len
        invariant
            len == bytes@.len(),
            at + len < cap,
            cap == before.len(),
            buf@.len() == cap,
            k <= len,
            buf@.take(at as int) == before.take(at as int),
            buf@.subrange(at as int, at + k) == bytes@.take(k as int),
            buf@.skip(at + k) == before.skip(at + k),
        decreases len - k,
    {
        let ghost prev = buf@;
        buf[at + k] = bytes[k];
        proof {
            assert(buf@.take(at as int) =~= before.take(at as int)) by {
                assert forall|j: int| 0 <= j < at implies buf@[j] == prev.take(at as int)[j] by {}
            }
            assert(buf@.subrange(at as int, at + k + 1) =~= bytes@.take(k + 1)) by {
                assert forall|j: int| 0 <= j < k implies #[trigger] prev.subrange(at as int, at + k)[j] == buf@[at + j] by {}
            }
            assert forall|j: int| 0 <= j < buf@.skip(at + k + 1).len() implies #[trigger] buf@.skip(at + k + 1)[j]
                == before.skip(at + k + 1)[j] by {
                assert(prev.skip(at + k)[j + 1] == before.skip(at + k)[j + 1]);
            }
            assert(buf@.skip(at + k + 1) =~= before.skip(at + k + 1));
        }
        k = k + 1;
    }
    let ghost mid = buf@;
    buf[at + len] = 9u8;
    proof {
        let m = at + len + 1;
        assert(bytes@.take(len as int) =~= bytes@);
        assert(buf@.take(m) =~= before.take(at as int) + bytes@.push(9u8)) by {
            assert forall|j: int| 0 <= j < m implies #[trigger] buf@.take(m)[j] == (before.take(at as int) + bytes@.push(9u8))[j] by {
                if j < at {
                    assert(mid.take(at as int)[j] == mid[j]);
                } else if j < at + len {
                    assert(mid.subrange(at as int, at + len)[j - at] == mid[j]);
                }
            }
        }
        assert forall|j: int| 0 <= j < buf@.skip(m).len() implies #[trigger] buf@.skip(m)[j] == before.skip(m)[j] by {
            assert(mid.skip(at + len)[j + 1] == before.skip(at + len)[j + 1]);
        }
        assert(buf@.skip(m) =~= before.skip(m));
    }
}

/// A node may be replaced by one of the same kind with the same entries:
/// the arena stays well formed.
proof fn lemma_wf_replace(fs: Seq<FileView>, n: int, f: FileView)
    requires
        fs_wf(fs),
        0 <= n < fs.len(),
        is_dir(f) == is_dir(fs[n]),
        entries_of(f) == entries_of(fs[n]),
    ensures
        fs_wf(fs.update(n, f)),
{
    let t = fs.update(n, f);
    assert forall|d: int| 0 <= d < t.len() implies keys_unique(#[trigger] entries_of(t[d])) by {
        assert(entries_of(t[d]) == entries_of(fs[d]));
    }
    assert forall|d: int, i: int|
        0 <= d < t.len() && 0 <= i < entries_of(t[d]).len() implies (#[trigger] entries_of(
        t[d],
    )[i]).1 < t.len() by {
        assert(entries_of(t[d]) == entries_of(fs[d]));
    }
}

/// Removing an entry keeps names unique and keeps only entries that were there.
pub proof fn lemma_swap_removed(e: Seq<(Seq<char>, usize)>, i: int)
    requires
        keys_unique(e),
        0 <= i < e.len(),
    ensures
        keys_unique(swap_removed(e, i)),
        forall|j: int|
            0 <= j < swap_removed(e, i).len() ==> exists|k: int|
                0 <= k < e.len() && #[trigger] swap_removed(e, i)[j] == e[k],
{
    let r = swap_removed(e, i);
    assert forall|j: int| 0 <= j < r.len() implies exists|k: int|
        0 <= k < e.len() && #[trigger] r[j] == e[k] by {
        if j == i {
            assert(r[j] == e[e.len() - 1]);
        } else {
            assert(r[j] == e[j]);
        }
    }
    assert forall|a: int, b: int| 0 <= a < r.len() && 0 <= b < r.len() && a != b implies r[a].0
        != r[b].0 by {
        let ka = if a == i { e.len() - 1 } else { a };
        let kb = if b == i { e.len() - 1 } else { b };
        assert(r[a] == e[ka]);
        assert(r[b] == e[kb]);
    }
}

/// A whole listing from name `i` on: each name followed by a tab.
pub open spec fn listing_from(names: Seq<Seq<char>>, i: int) -> Seq<u8>
    decreases names.len() - i,
{
    if i < 0 || i >= names.len() {
        Seq::empty()
    } else {
        entry_bytes(names[i]) + listing_from(names, i + 1)
    }
}

/// The listing of the first `i` names.
pub open spec fn listing_upto(names: Seq<Seq<char>>, i: int) -> Seq<u8>
    decreases i,
{
    if i <= 0 || i > names.len() {
        Seq::empty()
    } else {
        listing_upto(names, i - 1) + entry_bytes(names[i - 1])
    }
}

/// The listing of the first `i` names, then the rest, is the whole listing.
pub proof fn lemma_listing_split(names: Seq<Seq<char>>, i: int)
    requires
        0 <= i <= names.len(),
    ensures
        listing_upto(names, i) + listing_from(names, i) == listing_from(names, 0),
    decreases i,
{
    if i == 0 {
        assert(Seq::<u8>::empty() + listing_from(names, 0) =~= listing_from(names, 0));
    } else {
        lemma_listing_split(names, i - 1);
        assert(listing_upto(names, i - 1) + entry_bytes(names[i - 1]) + listing_from(names, i)
            =~= listing_upto(names, i - 1) + listing_from(names, i - 1));
    }
}

/// Walking without creating leaves the file system as it was.
proof fn lemma_walk_keeps(fs: Seq<FileView>, comps: Seq<Seq<char>>, now: u64)
    ensures
        walk(fs, comps, false, now).0 == fs,
    decreases comps.len(),
{
    if comps.len() > 0 {
        lemma_walk_keeps(fs, comps.drop_last(), now);
    }
}

/// Opening with neither a creating flag nor write-and-truncate together
/// leaves the file system as it was.
pub proof fn law_plain_open_keeps(fs: Seq<FileView>, path: Seq<char>, options: u32, now: u64)
    requires
        options & 240 == 0,
        options & 10 != 10,
    ensures
        open_spec(fs, path, options, now).0 == fs,
{
    assert(options & 240 == 0 ==> options & 64 != 64 && options & 32 != 32 && options & 128 != 128
        && options & 80 == 0) by (bit_vector);
    let p = #[verifier::truncate] ((options & 15) as u8);
    assert(options & 10 != 10 ==> (#[verifier::truncate] ((options & 15) as u8)) & 10 != 10) by (bit_vector);
    match path_parent(path) {
        None => {},
        Some(parent) => {
            lemma_walk_keeps(fs, split_on(parent, sep()).skip(1), now);
            match path_parent(parent) {
                None => {},
                Some(pp) => {
                    lemma_walk_keeps(fs, split_on(pp, sep()).skip(1), now);
                },
            }
        },
    }
}

/// Reading a file node back where it was just written gives the bytes
/// written, as far as the buffer holds them.
pub proof fn law_file_read_back(
    fs: Seq<FileView>,
    n: int,
    data: Seq<u8>,
    offset: int,
    now: u64,
    cap: int,
)
    requires
        fs_wf(fs),
        0 <= n < fs.len(),
        fs[n].node is File,
        0 <= offset,
        offset + data.len() <= usize::MAX,
        cap >= data.len(),
    ensures
        read_spec(write_spec(fs, n, data, offset, now).0[n], offset, cap) matches Ok(b)
            && b.len() >= data.len() && b.take(data.len() as int) == data,
        write_spec(fs, n, data, offset, now).1 == Ok::<usize, FSErrorKind>(data.len() as usize),
{
    let d = match fs[n].node {
        NodeView::File(d) => d,
        _ => Seq::empty(),
    };
    let d2 = overwrite(d, data, offset);
    let end = offset + data.len();
    assert(d2.len() >= end);
    let k = if d2.len() - offset < cap { d2.len() - offset } else { cap };
    let b = d2.subrange(offset, offset + k);
    assert(b.take(data.len() as int) =~= data);
}

/// Reading a link back from the start after writing valid UTF-8 to it gives
/// the bytes written.
pub proof fn law_link_read_back(fs: Seq<FileView>, n: int, data: Seq<u8>, now: u64, cap: int)
    requires
        fs_wf(fs),
        0 <= n < fs.len(),
        fs[n].node is Link,
        valid_utf8(data),
        cap >= data.len(),
    ensures
        read_spec(write_spec(fs, n, data, 0, now).0[n], 0, cap) == Ok::<Seq<u8>, FSErrorKind>(data),
{
    vstd::utf8::decode_utf8_encode_utf8(data);
    assert(data.subrange(0, data.len() as int) =~= data);
}

/// Listing from name `i` on into a buffer that holds all of it copies
/// every name and reaches the end.
proof fn lemma_display_whole(names: Seq<Seq<char>>, i: int, out: Seq<u8>, cap: int)
    requires
        0 <= i <= names.len(),
        out.len() + listing_from(names, i).len() <= cap,
    ensures
        dir_display_from(names, i, 0, out, cap) == (out + listing_from(names, i), true),
    decreases names.len() - i,
{
    if i == names.len() {
        assert(out + listing_from(names, i) =~= out);
    } else {
        let b = entry_bytes(names[i]);
        lemma_display_whole(names, i + 1, out + b, cap);
        assert(out + b + listing_from(names, i + 1) =~= out + listing_from(names, i));
    }
}

/// Reading a listing from offset zero into a buffer large enough for it
/// gives the whole listing, every name followed by a tab, and reaches the end.
pub proof fn law_listing_whole(names: Seq<Seq<char>>, cap: int)
    requires
        cap >= listing_from(names, 0).len(),
    ensures
        dir_display(names, 0, cap) == (listing_from(names, 0), true),
{
    lemma_display_whole(names, 0, Seq::empty(), cap);
    assert(Seq::<u8>::empty() + listing_from(names, 0) =~= listing_from(names, 0));
}

/// After a successful unlink, the parent directory no longer has an entry
/// by that name, and every other entry is still there.
pub proof fn law_unlink_removes(fs: Seq<FileView>, pd: int, path: Seq<char>, options: u32)
    requires
        fs_wf(fs),
        0 <= pd < fs.len(),
        unlink_in_dir(fs, pd, path, options).1 is Ok,
    ensures
        lookup(entries_of(unlink_in_dir(fs, pd, path, options).0[pd]), path_file(path)) is None,
        forall|other: Seq<char>|
            other != path_file(path) ==> lookup(
                entries_of(unlink_in_dir(fs, pd, path, options).0[pd]),
                other,
            ) == #[trigger] lookup(entries_of(fs[pd]), other),
{
    let e = entries_of(fs[pd]);
    let name = path_file(path);
    let i = entry_index(e, name);
    lemma_entry_index(e, name);
    let r = swap_removed(e, i);
    lemma_swap_removed(e, i);
    assert(entries_of(unlink_in_dir(fs, pd, path, options).0[pd]) == r);
    lemma_entry_index(r, name);
    if entry_index(r, name) >= 0 {
        let j = entry_index(r, name);
        let w = choose|w: int| 0 <= w < e.len() && #[trigger] r[j] == e[w];
        lemma_entry_index_unique(e, name, w);
        if j == i {
            assert(r[j] == e[e.len() - 1]);
            assert(e.len() - 1 != i);
        } else {
            assert(r[j] == e[j]);
        }
    }
    assert forall|other: Seq<char>| other != name implies lookup(r, other) == #[trigger] lookup(e, other) by {
        lemma_entry_index(e, other);
        lemma_entry_index(r, other);
        if entry_index(e, other) >= 0 {
            let k = entry_index(e, other);
            if k == e.len() - 1 && k != i {
                assert(r[i] == e[k]);
                lemma_entry_index_unique(r, other, i);
            } else if k != i {
                assert(r[k] == e[k]);
                lemma_entry_index_unique(r, other, k);
            }
        } else {
            if entry_index(r, other) >= 0 {
                let j = entry_index(r, other);
                let w = choose|w: int| 0 <= w < e.len() && #[trigger] r[j] == e[w];
                assert(has_key(e, other));
            }
        }
    }
}

/// After a successful open that creates (a directory, a link or a file) at a
/// path not ending in `/`, the parent directory files the opened node under
/// the path's last component.
pub proof fn law_open_creates(fs: Seq<FileView>, pd: int, path: Seq<char>, options: u32, now: u64)
    requires
        fs_wf(fs),
        0 <= pd < fs.len(),
        options & 32 == 32 || options & 128 == 128 || options & 80 != 0,
        !ends_with_sep(path),
        open_in_dir(fs, pd, path, options, now).1 matches Ok(OpenView::Node { .. }),
    ensures
        open_in_dir(fs, pd, path, options, now).1 matches Ok(OpenView::Node { node, .. })
            && lookup(entries_of(open_in_dir(fs, pd, path, options, now).0[pd]), path_file(path))
            == Some(node as usize),
{
    let name = path_file(path);
    let e = entries_of(fs[pd]);
    lemma_entry_index(e, name);
    let fresh = if options & 32 == 32 {
        fresh_dir(now)
    } else if options & 128 == 128 {
        fresh_link(now)
    } else {
        fresh_file(now)
    };
    let (f2, c) = ensure(fs, pd, name, fresh);
    match lookup(e, name) {
        Some(i) => {},
        None => {
            let e2 = e.push((name, fs.len() as usize));
            assert(entries_of(f2[pd]) == e2);
            assert(keys_unique(e2)) by {
                assert forall|a: int, b: int| 0 <= a < e2.len() && 0 <= b < e2.len() && a != b implies e2[a].0 != e2[b].0 by {
                    if a < e.len() && b < e.len() {
                        assert(keys_unique(e));
                    }
                }
            }
            lemma_entry_index_unique(e2, name, e.len() as int);
        },
    }
    let (f3, r) = open_node(f2, c, options, now);
    assert(f3[pd] == f2[pd] || entries_of(f3[pd]) == entries_of(f2[pd]));
}

impl DirData {
    pub closed spec fn view(&self) -> Seq<(Seq<char>, usize)> {
        dir_entries(self.inner)
    }

    pub fn new() -> (r: Self)
        ensures
            r.view() == Seq::<(Seq<char>, usize)>::empty(),
    {
        DirData { inner: map_new() }
    }

    /// Writes the listing, read at `offset`, to the front of `buf`; returns
    /// how many bytes were written and whether the listing was read to its end.
    pub fn buffered_display(&self, buf: &mut [u8], offset: usize) -> (r: (usize, bool))
        ensures
            final(buf)@.len() == old(buf)@.len(),
            r.0 <= old(buf)@.len(),
            final(buf)@.take(r.0 as int) == dir_display(names_of(self.view()), offset as int, old(buf)@.len() as int).0,
            final(buf)@.skip(r.0 as int) == old(buf)@.skip(r.0 as int),
            r.1 == dir_display(names_of(self.view()), offset as int, old(buf)@.len() as int).1,
    {
        let ghost orig = buf@;
        let ghost names = names_of(self.view());
        let n = map_len(&self.inner);
        let cap = buf.len();
        let mut to_skip = offset;
        let mut newly: usize = 0;
        let mut i: usize = 0;
        proof {
            assert(orig.take(0) =~= Seq::<u8>::empty());
        }
        while i < n
            invariant
                orig == old(buf)@,
                names == names_of(self.view()),
                n == names.len(),
                i <= n,
                cap == orig.len(),
                buf@.len() == cap,
                newly <= cap,
                dir_display_from(names, i as int, to_skip as int, buf@.take(newly as int), cap as int)
                    == dir_display(names, offset as int, cap as int),
                buf@.skip(newly as int) == orig.skip(newly as int),
            decreases n - i,
        {
            let (name, _) = map_entry_at(&self.inner, i);
            let bytes = name.as_str().as_bytes();
            proof {
                assert(bytes@ == encode_utf8(names[i as int]));
            }
            if to_skip > 0 {
                to_skip = skip_entry(to_skip, bytes.len());
            } else {
                if bytes.len() >= cap - newly {
                    return (newly, false);
                }
                let ghost b0 = buf@;
                put_entry(buf, newly, bytes);
                proof {
                    lemma_skip_more(b0, orig, newly as int, newly + bytes@.len() + 1);
                }
                newly = newly + bytes.len() + 1;
            }
            i = i + 1;
        }
        (newly, true)
    }

    /// The node filed under `name`.
    pub fn get(&self, name: &str) -> (r: Option<usize>)
        requires
            keys_unique(self.view()),
        ensures
            r == lookup(self.view(), name@),
    {
        let r = map_get(&self.inner, name);
        proof {
            let e = self.view();
            lemma_entry_index(e, name@);
            if let Some(v) = r {
                let i = choose|i: int| 0 <= i < e.len() && e[i] == (name@, v);
                lemma_entry_index_unique(e, name@, i);
            }
        }
        r
    }

    /// Files node `v` under `name`: a name already present keeps its place
    /// and its old node is returned; a new name goes last.
    pub fn insert(&mut self, name: String, v: usize) -> (r: Option<usize>)
        requires
            keys_unique(old(self).view()),
        ensures
            final(self).view() == insert_entry(old(self).view(), name@, v),
            keys_unique(final(self).view()),
            r == lookup(old(self).view(), name@),
    {
        let ghost e = self.view();
        let ghost key = name@;
        let r = map_insert(&mut self.inner, name, v);
        proof {
            lemma_entry_index(e, key);
            if has_key(e, key) {
                let i = choose|i: int| 0 <= i < e.len() && #[trigger] e[i].0 == key && r == Some(e[i].1)
                    && dir_entries(self.inner) == e.update(i, (key, v));
                lemma_entry_index_unique(e, key, i);
            }
            lemma_insert_entry(e, key, v);
        }
        r
    }

    /// Removes the entry `name`, if there is one: the last entry takes its
    /// place; its node is returned.
    pub fn swap_remove(&mut self, name: &str) -> (r: Option<usize>)
        requires
            keys_unique(old(self).view()),
        ensures
            r == lookup(old(self).view(), name@),
            final(self).view() == (if entry_index(old(self).view(), name@) < 0 {
                old(self).view()
            } else {
                swap_removed(old(self).view(), entry_index(old(self).view(), name@))
            }),
            keys_unique(final(self).view()),
    {
        let ghost e = self.view();
        let r = map_swap_remove(&mut self.inner, name);
        proof {
            lemma_entry_index(e, name@);
            if has_key(e, name@) {
                let i = choose|i: int| 0 <= i < e.len() && #[trigger] e[i].0 == name@ && r == Some(e[i].1)
                    && dir_entries(self.inner) == e.update(i, e.last()).drop_last();
                lemma_entry_index_unique(e, name@, i);
                lemma_swap_removed(e, i);
            }
        }
        r
    }

    /// The whole listing: every name followed by a tab.
    pub fn listing(&self) -> (r: Vec<u8>)
        ensures
            r@ == listing_from(names_of(self.view()), 0),
    {
        let ghost names = names_of(self.view());
        let n = map_len(&self.inner);
        let mut out: Vec<u8> = Vec::new();
        let mut i: usize = 0;
        while i < n
            invariant
                names == names_of(self.view()),
                n == names.len(),
                i <= n,
                out@ == listing_upto(names, i as int),
            decreases n - i,
        {
            let (name, _) = map_entry_at(&self.inner, i);
            let bytes = name.as_str().as_bytes();
            append_bytes(&mut out, bytes, 0);
            out.push(9u8);
            proof {
                assert(bytes@ == encode_utf8(names[i as int]));
                assert(bytes@.skip(0) =~= bytes@);
                assert(out@ =~= listing_upto(names, i + 1));
            }
            i = i + 1;
        }
        proof {
            lemma_listing_split(names, n as int);
            assert(listing_from(names, n as int) =~= Seq::<u8>::empty());
            assert(out@ + Seq::<u8>::empty() =~= out@);
        }
        out
    }
}

/// The entries after filing `v` under `name`: in place of an entry of that
/// name, else last.
pub open spec fn insert_entry(e: Seq<(Seq<char>, usize)>, name: Seq<char>, v: usize) -> Seq<
    (Seq<char>, usize),
> {
    let i = entry_index(e, name);
    if i < 0 {
        e.push((name, v))
    } else {
        e.update(i, (name, v))
    }
}

pub proof fn lemma_insert_entry(e: Seq<(Seq<char>, usize)>, name: Seq<char>, v: usize)
    requires
        keys_unique(e),
    ensures
        keys_unique(insert_entry(e, name, v)),
        lookup(insert_entry(e, name, v), name) == Some(v),
        forall|k: int| 0 <= k < insert_entry(e, name, v).len() ==> (#[trigger] insert_entry(e, name, v)[k]).1 == v
            || exists|j: int| 0 <= j < e.len() && insert_entry(e, name, v)[k] == e[j],
{
    lemma_entry_index(e, name);
    let e2 = insert_entry(e, name, v);
    let i = entry_index(e, name);
    if i < 0 {
        assert forall|a: int, b: int| 0 <= a < e2.len() && 0 <= b < e2.len() && a != b implies e2[a].0 != e2[b].0 by {
            if a < e.len() && b < e.len() {
                assert(e2[a] == e[a] && e2[b] == e[b]);
            } else if a < e.len() {
                assert(e2[a] == e[a]);
            } else {
                assert(e2[b] == e[b]);
            }
        }
        lemma_entry_index_unique(e2, name, e.len() as int);
    } else {
        assert forall|a: int, b: int| 0 <= a < e2.len() && 0 <= b < e2.len() && a != b implies e2[a].0 != e2[b].0 by {
            if a != i && b != i {
                assert(e2[a] == e[a] && e2[b] == e[b]);
            } else if a == i {
                assert(e2[b] == e[b]);
            } else {
                assert(e2[a] == e[a]);
            }
        }
        lemma_entry_index_unique(e2, name, i);
    }
    assert forall|k: int| 0 <= k < e2.len() implies (#[trigger] e2[k]).1 == v
        || exists|j: int| 0 <= j < e.len() && e2[k] == e[j] by {
        if k < e.len() && k != i {
            assert(e2[k] == e[k]);
        }
    }
}

pub proof fn lemma_entry_index(e: Seq<(Seq<char>, usize)>, name: Seq<char>)
    ensures
        -1 <= entry_index(e, name) < e.len(),
        entry_index(e, name) >= 0 ==> e[entry_index(e, name)].0 == name,
        entry_index(e, name) < 0 ==> !has_key(e, name),
    decreases e.len(),
{
    if e.len() > 0 && e[0].0 != name {
        lemma_entry_index(e.drop_first(), name);
        if entry_index(e, name) < 0 {
            assert forall|i: int| 0 <= i < e.len() implies #[trigger] e[i].0 != name by {
                if i > 0 {
                    assert(e.drop_first()[i - 1] == e[i]);
                }
            }
        }
    }
}

pub proof fn lemma_entry_index_unique(e: Seq<(Seq<char>, usize)>, name: Seq<char>, i: int)
    requires
        keys_unique(e),
        0 <= i < e.len(),
        e[i].0 == name,
    ensures
        entry_index(e, name) == i,
        lookup(e, name) == Some(e[i].1),
{
    lemma_entry_index(e, name);
    assert(has_key(e, name));
}


/// Once walking a prefix of the components fails, walking all of them
/// fails the same way.
proof fn lemma_walk_err_sticks(
    fs: Seq<FileView>,
    comps: Seq<Seq<char>>,
    k: int,
    create_all: bool,
    now: u64,
)
    requires
        0 <= k <= comps.len(),
        walk(fs, comps.take(k), create_all, now).1 is Err,
    ensures
        walk(fs, comps, create_all, now) == walk(fs, comps.take(k), create_all, now),
    decreases comps.len(),
{
    if comps.len() == k {
        assert(comps.take(k) =~= comps);
    } else {
        assert(comps.drop_last().take(k) =~= comps.take(k));
        lemma_walk_err_sticks(fs, comps.drop_last(), k, create_all, now);
    }
}

/// An exec result of opening agrees with a spec result.
pub open spec fn open_agrees(r: FSResult<Opened>, s: Result<OpenView, FSErrorKind>) -> bool {
    match r {
        Ok(Opened::File(f)) => s matches Ok(OpenView::Node { node, perms, cursor }) && f.node
            == node && f.perms@ == perms && f.cursor@ == cursor && f.path is None,
        Ok(Opened::FollowLink(p)) => s matches Ok(OpenView::Link(t)) && p@ == t,
        Err(e) => s == Err::<OpenView, FSErrorKind>(e.kind_of()),
    }
}

/// An exec result agrees with a spec result: same node, or same error kind.
pub open spec fn res_agrees(r: FSResult<usize>, s: Result<int, FSErrorKind>) -> bool {
    match r {
        Ok(i) => s == Ok::<int, FSErrorKind>(i as int),
        Err(e) => s == Err::<int, FSErrorKind>(e.kind_of()),
    }
}

pub open spec fn fresh_of(kind: u8, now: u64) -> FileView {
    if kind == 0 {
        fresh_dir(now)
    } else if kind == 1 {
        fresh_file(now)
    } else {
        fresh_link(now)
    }
}

impl RamFS {
    pub closed spec fn view(&self) -> Seq<FileView> {
        self.nodes@.map_values(|f: RamFile| f.view())
    }

    pub open spec fn wf(&self) -> bool {
        fs_wf(self.view())
    }

    /// A file system holding only an empty root directory.
    pub fn new(now: u64) -> (r: Self)
        ensures
            r.wf(),
            r.view() == seq![fresh_dir(now)],
    {
        let root = RamFile { node: RamNode::Dir(DirData::new()), perms: NodePermissions::rwx(), stat: FStat::new(now) };
        let mut nodes = Vec::new();
        nodes.push(root);
        let r = RamFS { nodes };
        assert(r.view() =~= seq![fresh_dir(now)]);
        r
    }

    pub fn len(&self) -> (r: usize)
        ensures
            r == self.view().len(),
    {
        self.nodes.len()
    }

    fn fresh_node(kind: u8, now: u64) -> (r: RamFile)
        ensures
            r.view() == fresh_of(kind, now),
    {
        if kind == 0 {
            RamFile { node: RamNode::Dir(DirData::new()), perms: NodePermissions::rwx(), stat: FStat::new(now) }
        } else if kind == 1 {
            RamFile { node: RamNode::File(Vec::new()), perms: NodePermissions::rw(), stat: FStat::new(now) }
        } else {
            RamFile { node: RamNode::SoftLink(PathBuf::new()), perms: NodePermissions::rw(), stat: FStat::new(now) }
        }
    }

    pub fn is_dir(&self, n: usize) -> (r: bool)
        requires
            n < self.view().len(),
        ensures
            r == is_dir(self.view()[n as int]),
    {
        match self.nodes[n].node {
            RamNode::Dir(_) => true,
            _ => false,
        }
    }

    pub fn perms(&self, n: usize) -> (r: NodePermissions)
        requires
            n < self.view().len(),
        ensures
            r@ == self.view()[n as int].perms,
    {
        self.nodes[n].perms
    }

    pub fn fstat(&self, n: usize) -> (r: FStat)
        requires
            n < self.view().len(),
        ensures
            r == self.view()[n as int].stat,
    {
        self.nodes[n].stat
    }

    pub fn node_type(&self, n: usize) -> (r: NodeType)
        requires
            n < self.view().len(),
        ensures
            r == (match self.view()[n as int].node {
                NodeView::Link(_) => NodeType::SymLink,
                NodeView::File(_) => NodeType::File,
                NodeView::Dir(_) => NodeType::Dir,
            }),
    {
        match self.nodes[n].node {
            RamNode::SoftLink(_) => NodeType::SymLink,
            RamNode::File(_) => NodeType::File,
            RamNode::Dir(_) => NodeType::Dir,
        }
    }

    /// The node filed under `name` in directory `d`.
    fn dir_lookup(&self, d: usize, name: &str) -> (r: Option<usize>)
        requires
            self.wf(),
            d < self.view().len(),
            is_dir(self.view()[d as int]),
        ensures
            r == lookup(entries_of(self.view()[d as int]), name@),
    {
        match &self.nodes[d].node {
            RamNode::Dir(dd) => {
                let r = map_get(&dd.inner, name);
                proof {
                    let e = entries_of(self.view()[d as int]);
                    assert(e == dir_entries(dd.inner));
                    assert(keys_unique(e));
                    lemma_entry_index(e, name@);
                    if let Some(v) = r {
                        let i = choose|i: int| 0 <= i < e.len() && e[i] == (name@, v);
                        lemma_entry_index_unique(e, name@, i);
                    }
                }
                r
            },
            _ => None,
        }
    }

    /// The entry `name` of directory `d`, created (of the given kind:
    /// 0 directory, 1 file, 2 link) when it is missing.
    fn ensure_entry(&mut self, d: usize, name: &str, kind: u8, now: u64) -> (r: usize)
        requires
            old(self).wf(),
            d < old(self).view().len(),
            is_dir(old(self).view()[d as int]),
        ensures
            final(self).wf(),
            (final(self).view(), r as int) == ensure(old(self).view(), d as int, name@, fresh_of(kind, now)),
            r < final(self).view().len(),
    {
        match self.dir_lookup(d, name) {
            Some(i) => {
                proof {
                    let e = entries_of(self.view()[d as int]);
                    lemma_entry_index(e, name@);
                }
                i
            },
            None => {
                let ghost old_view = self.view();
                let idx = self.nodes.len();
                let fresh = Self::fresh_node(kind, now);
                self.nodes.push(fresh);
                let ghost mid = self.view();
                assert(mid =~= old_view.push(fresh_of(kind, now)));
                let key = name.to_owned();
                match &mut self.nodes[d].node {
                    RamNode::Dir(dd) => {
                        let ghost before = dir_entries(dd.inner);
                        map_insert(&mut dd.inner, key, idx);
                        proof {
                            lemma_entry_index(before, name@);
                        }
                    },
                    _ => {},
                }
                let total = self.nodes.len();
                proof {
                    let e = entries_of(old_view[d as int]);
                    lemma_entry_index(e, name@);
                    let target = ensure(old_view, d as int, name@, fresh_of(kind, now)).0;
                    assert(self.view() =~= target);
                    assert forall|dd: int| 0 <= dd < target.len() implies keys_unique(#[trigger] entries_of(target[dd])) by {
                        if dd == d {
                            let e2 = entries_of(target[dd]);
                            assert(e2 == e.push((name@, idx)));
                            assert forall|a: int, b: int| 0 <= a < e2.len() && 0 <= b < e2.len() && a != b implies e2[a].0 != e2[b].0 by {
                                if a < e.len() && b < e.len() {
                                    assert(keys_unique(entries_of(old_view[dd])));
                                }
                            }
                        } else if dd < old_view.len() {
                            assert(entries_of(target[dd]) == entries_of(old_view[dd]));
                        } else {
                            assert(entries_of(target[dd]) == entries_of(fresh_of(kind, now)));
                        }
                    }
                    assert forall|dd: int, i: int| 0 <= dd < target.len() && 0 <= i < entries_of(target[dd]).len() implies (#[trigger] entries_of(target[dd])[i]).1 < target.len() by {
                        if dd == d {
                            if i < e.len() {
                                assert(entries_of(target[dd])[i] == entries_of(old_view[dd])[i]);
                            }
                        } else if dd < old_view.len() {
                            assert(entries_of(target[dd]) == entries_of(old_view[dd]));
                        }
                    }
                }
                idx
            },
        }
    }

    fn step_create(&mut self, cur: usize, name: &str, now: u64) -> (r: FSResult<usize>)
        requires
            old(self).wf(),
            cur < old(self).view().len(),
        ensures
            final(self).wf(),
            final(self).view() == step_create(old(self).view(), cur as int, name@, now).0,
            res_agrees(r, step_create(old(self).view(), cur as int, name@, now).1),
            r matches Ok(c) ==> c < final(self).view().len(),
    {
        if !self.nodes[cur].perms.w() {
            return Err(FSError::simple(FSErrorKind::PermissionDenied));
        }
        if !self.is_dir(cur) {
            return Err(FSError::simple(FSErrorKind::InvalidPath));
        }
        let c = self.ensure_entry(cur, name, 0, now);
        proof {
            let e = entries_of(old(self).view()[cur as int]);
            lemma_entry_index(e, name@);
        }
        Ok(c)
    }

    fn step_get(&self, cur: usize, name: &str) -> (r: FSResult<usize>)
        requires
            self.wf(),
            cur < self.view().len(),
        ensures
            res_agrees(r, step_get(self.view(), cur as int, name@)),
            r matches Ok(c) ==> c < self.view().len(),
    {
        if !self.is_dir(cur) {
            return Err(FSError::simple(FSErrorKind::InvalidPath));
        }
        match self.dir_lookup(cur, name) {
            Some(i) => {
                proof {
                    let e = entries_of(self.view()[cur as int]);
                    lemma_entry_index(e, name@);
                }
                Ok(i)
            },
            None => Err(FSError::simple(FSErrorKind::NotFound)),
        }
    }

    fn walk_step(&mut self, cur: usize, name: &str, create_all: bool, now: u64) -> (r: FSResult<usize>)
        requires
            old(self).wf(),
            cur < old(self).view().len(),
        ensures
            final(self).wf(),
            final(self).view() == walk_step(old(self).view(), cur as int, name@, create_all, now).0,
            res_agrees(r, walk_step(old(self).view(), cur as int, name@, create_all, now).1),
            r matches Ok(c) ==> c < final(self).view().len(),
    {
        let child = if create_all {
            self.step_create(cur, name, now)
        } else {
            self.step_get(cur, name)
        };
        match child {
            Err(e) => Err(e),
            Ok(c) => {
                if !self.is_dir(c) {
                    Err(FSError::simple(FSErrorKind::InvalidPath))
                } else if !self.nodes[c].perms.x() {
                    Err(FSError::simple(FSErrorKind::PermissionDenied))
                } else {
                    Ok(c)
                }
            },
        }
    }

    /// The node `path` leads to, entering (and with `create_all` creating)
    /// the directories on the way.
    pub fn traverse(&mut self, path: Path<'_>, create_all: bool, now: u64) -> (r: FSResult<usize>)
        requires
            old(self).wf(),
        ensures
            final(self).wf(),
            final(self).view() == traverse_spec(old(self).view(), path@, create_all, now).0,
            res_agrees(r, traverse_spec(old(self).view(), path@, create_all, now).1),
            r matches Ok(c) ==> c < final(self).view().len(),
    {
        let parent = match path.parent() {
            None => return Ok(0),
            Some(p) => p,
        };
        let comps = parent.traverse();
        let ghost segs = split_on(parent@, sep()).skip(1);
        let ghost start = self.view();
        proof {
            crate::chars::lemma_split_on_nonempty(parent@, sep());
            assert(comps@.map_values(|x: &str| x@).len() == comps@.len());
            assert(segs.take(0) =~= Seq::<Seq<char>>::empty());
        }
        let mut cur: usize = 0;
        let mut j: usize = 1;
        while j < comps.len()
            invariant
                self.wf(),
                1 <= j <= comps@.len(),
                comps@.map_values(|x: &str| x@) == split_on(parent@, sep()),
                segs == split_on(parent@, sep()).skip(1),
                path_parent(path@) == Some(parent@),
                start == old(self).view(),
                cur < self.view().len(),
                walk(start, segs.take(j - 1), create_all, now) == (self.view(), Ok::<int, FSErrorKind>(cur as int)),
            decreases comps@.len() - j,
        {
            let ghost before = self.view();
            let step = self.walk_step(cur, comps[j], create_all, now);
            proof {
                assert(comps@.map_values(|x: &str| x@)[j as int] == comps@[j as int]@);
                assert(segs.take(j as int).drop_last() =~= segs.take(j - 1));
                assert(segs.take(j as int).last() == segs[j - 1]);
                assert(segs[j - 1] == comps@[j as int]@);
            }
            proof {
                assert(walk(start, segs.take(j as int), create_all, now) == walk_step(before, cur as int, segs[j - 1], create_all, now));
            }
            match step {
                Err(e) => {
                    proof {
                        lemma_walk_err_sticks(start, segs, j as int, create_all, now);
                    }
                    return Err(e);
                },
                Ok(c) => {
                    cur = c;
                },
            }
            j = j + 1;
        }
        proof {
            assert(segs.take(comps@.len() - 1) =~= segs);
        }
        let name = path.file();
        if create_all {
            self.step_create(cur, name, now)
        } else {
            self.step_get(cur, name)
        }
    }

    /// Empties a file node and stamps it with the time; other nodes cannot be cleared.
    pub fn clear(&mut self, n: usize, now: u64) -> (r: FSResult<()>)
        requires
            old(self).wf(),
            n < old(self).view().len(),
        ensures
            final(self).wf(),
            final(self).view() == clear_spec(old(self).view(), n as int, now).0,
            match r {
                Ok(()) => clear_spec(old(self).view(), n as int, now).1 is Ok,
                Err(e) => clear_spec(old(self).view(), n as int, now).1 == Err::<(), FSErrorKind>(
                    e.kind_of(),
                ),
            },
    {
        let is_file = match self.nodes[n].node {
            RamNode::File(_) => true,
            _ => false,
        };
        if !is_file {
            return Err(FSError::simple(FSErrorKind::NotSupported));
        }
        let ghost before = self.view();
        self.nodes[n].node = RamNode::File(Vec::new());
        self.nodes[n].stat.t_mod = now;
        self.nodes[n].stat.size = 0;
        proof {
            let target = clear_spec(before, n as int, now).0;
            assert(self.view() =~= target);
            assert forall|d: int| 0 <= d < target.len() implies keys_unique(#[trigger] entries_of(target[d])) by {
                if d != n {
                    assert(entries_of(target[d]) == entries_of(before[d]));
                }
            }
            assert forall|d: int, i: int| 0 <= d < target.len() && 0 <= i < entries_of(target[d]).len() implies (#[trigger] entries_of(target[d])[i]).1 < target.len() by {
                assert(entries_of(target[d]) == entries_of(before[d]));
            }
        }
        Ok(())
    }

    /// A handle on node `n` carrying the permissions the options ask for.
    fn file_with_perms(&mut self, n: usize, options: OpenOptions, now: u64) -> (r: File)
        requires
            old(self).wf(),
            n < old(self).view().len(),
        ensures
            final(self).wf(),
            final(self).view() == with_perms_spec(old(self).view(), n as int, options@, now).0,
            r.node == n,
            final(self).view().len() == old(self).view().len(),
            r.perms@ == with_perms_spec(old(self).view(), n as int, options@, now).1,
            r.cursor@ == with_perms_spec(old(self).view(), n as int, options@, now).2,
            r.path is None,
    {
        let mut f = File::new(n);
        f.perms = FPerms::from_options(options);
        if f.perms.contains(FPerms::APPEND()) {
            f.set_cursor(self.nodes[n].stat.size);
        }
        if f.perms.contains(FPerms::from_bits_retain(10)) {
            let _ = self.clear(n, now);
            f.set_cursor(0);
        }
        f
    }

    /// Fails with `PermissionDenied` when the options ask for reading,
    /// writing or executing that the permissions do not grant.
    pub fn chk_perms(options: OpenOptions, perms: NodePermissions) -> (r: FSResult<()>)
        ensures
            r is Ok <==> !perms_refuse(options@, perms@),
            r matches Err(e) ==> e.kind_of() == FSErrorKind::PermissionDenied,
    {
        if (options.contains(OpenOptions::READ()) && !perms.r()) || (options.contains(
            OpenOptions::WRITE(),
        ) && !perms.w()) || (options.contains(OpenOptions::EXECUTE()) && !perms.x()) {
            Err(FSError::simple(FSErrorKind::PermissionDenied))
        } else {
            Ok(())
        }
    }

    fn open_node(&mut self, n: usize, options: OpenOptions, now: u64) -> (r: FSResult<Opened>)
        requires
            old(self).wf(),
            n < old(self).view().len(),
        ensures
            final(self).wf(),
            final(self).view() == open_node(old(self).view(), n as int, options@, now).0,
            open_agrees(r, open_node(old(self).view(), n as int, options@, now).1),
            r matches Ok(Opened::File(f)) ==> f.node < final(self).view().len(),
    {
        Self::chk_perms(options, self.nodes[n].perms)?;
        let f = self.file_with_perms(n, options, now);
        Ok(Opened::File(f))
    }

    /// Reads node `n` at `offset` into the front of `buf`.
    pub fn read(&self, n: usize, buf: &mut [u8], offset: usize) -> (r: FSResult<usize>)
        requires
            n < self.view().len(),
        ensures
            read_agrees(r, old(buf)@, final(buf)@, read_spec(self.view()[n as int], offset as int, old(buf)@.len() as int)),
    {
        proof {
            assert(self.view()[n as int] == self.nodes@[n as int].view());
        }
        match &self.nodes[n].node {
            RamNode::SoftLink(l) => {
                let bytes = l.as_str().as_bytes();
                Self::read_window(bytes, buf, offset)
            },
            RamNode::Dir(d) => {
                let (written, _at_end) = d.buffered_display(buf, offset);
                Ok(written)
            },
            RamNode::File(f) => {
                if offset == f.len() {
                    proof {
                        assert(f@.subrange(offset as int, offset as int) =~= Seq::<u8>::empty());
                        assert(buf@.take(0) =~= Seq::<u8>::empty());
                    }
                    return Ok(0);
                }
                Self::read_window(f.as_slice(), buf, offset)
            },
        }
    }

    fn read_window(bytes: &[u8], buf: &mut [u8], offset: usize) -> (r: FSResult<usize>)
        ensures
            read_agrees(r, old(buf)@, final(buf)@, window(bytes@, offset as int, old(buf)@.len() as int)),
    {
        let len = bytes.len();
        if offset > len {
            return Err(FSError::simple(FSErrorKind::UnexpectedEOF));
        }
        let avail = len - offset;
        let n = if avail < buf.len() { avail } else { buf.len() };
        copy_window(buf, bytes, offset, n);
        Ok(n)
    }

    /// Writes `buf` to node `n` at `offset`, at time `now`.
    pub fn write(&mut self, n: usize, buf: &[u8], offset: usize, now: u64) -> (r: FSResult<usize>)
        requires
            old(self).wf(),
            n < old(self).view().len(),
            old(self).view()[n as int].node is File ==> offset + buf@.len() <= usize::MAX,
        ensures
            final(self).wf(),
            final(self).view() == write_spec(old(self).view(), n as int, buf@, offset as int, now).0,
            write_agrees(r, write_spec(old(self).view(), n as int, buf@, offset as int, now).1),
    {
        let ghost before = self.view();
        proof {
            assert(before[n as int] == self.nodes@[n as int].view());
        }
        let is_dir = self.is_dir(n);
        if is_dir {
            return Err(FSError::simple(FSErrorKind::NotSupported));
        }
        let is_link = match &self.nodes[n].node {
            RamNode::SoftLink(_) => true,
            _ => false,
        };
        if is_link {
            match str_from_utf8(buf) {
                None => {
                    return Err(FSError::simple(FSErrorKind::InvalidPath));
                },
                Some(text) => {
                    self.nodes[n].node = RamNode::SoftLink(PathBuf::from_str_slice(text));
                },
            }
        } else {
            let mut data = Vec::new();
            match &mut self.nodes[n].node {
                RamNode::File(f) => {
                    std::mem::swap(&mut data, f);
                },
                _ => {},
            }
            let ghost d0 = data@;
            assert(before[n as int].node == NodeView::File(d0));
            let end = offset + buf.len();
            if end > data.len() {
                data.resize(end, 0u8);
            }
            let ghost grown = data@;
            proof {
                assert(grown.len() >= end);
                assert(grown =~= (if end > d0.len() { d0 + Seq::new((end - d0.len()) as nat, |k: int| 0u8) } else { d0 }));
            }
            let mut k: usize = 0;
            while k < buf.len()
                invariant
                    k <= buf@.len(),
                    end == offset + buf@.len(),
                    data@.len() == grown.len(),
                    grown.len() >= end,
                    forall|j: int| 0 <= j < offset ==> #[trigger] data@[j] == grown[j],
                    forall|j: int| offset + k <= j < grown.len() ==> #[trigger] data@[j] == grown[j],
                    forall|j: int| 0 <= j < k ==> #[trigger] data@[offset + j] == buf@[j],
                decreases buf@.len() - k,
            {
                data.set(offset + k, buf[k]);
                k = k + 1;
            }
            proof {
                assert(data@ =~= overwrite(d0, buf@, offset as int)) by {
                    let o = overwrite(d0, buf@, offset as int);
                    assert(o.len() == grown.len());
                    assert forall|j: int| 0 <= j < o.len() implies #[trigger] o[j] == data@[j] by {
                        if j < offset {
                        } else if j < end {
                            assert(data@[offset + (j - offset)] == buf@[j - offset]);
                        } else {
                        }
                    }
                }
            }
            let size = data.len();
            self.nodes[n].node = RamNode::File(data);
            self.nodes[n].stat.size = size;
        }
        self.nodes[n].stat.t_mod = now;
        proof {
            let target = write_spec(before, n as int, buf@, offset as int, now).0;
            assert(self.view() =~= target) by {
                assert forall|j: int| 0 <= j < target.len() implies #[trigger] self.view()[j] == target[j] by {
                    if j == n {
                        assert(self.view()[j] == self.nodes@[j].view());
                    }
                }
            }
            lemma_wf_replace(before, n as int, target[n as int]);
            assert(before.update(n as int, target[n as int]) =~= target);
        }
        Ok(buf.len())
    }

    /// Sets the permissions of node `n`, combined with the old ones as the strategy says.
    pub fn update_perms(&mut self, n: usize, perms: NodePermissions, strategy: PermUpdateStrategy)
        requires
            old(self).wf(),
            n < old(self).view().len(),
        ensures
            final(self).wf(),
            final(self).view() == old(self).view().update(
                n as int,
                FileView {
                    node: old(self).view()[n as int].node,
                    perms: updated_perms(old(self).view()[n as int].perms, perms@, strategy),
                    stat: old(self).view()[n as int].stat,
                },
            ),
    {
        let ghost before = self.view();
        let cur = self.nodes[n].perms.bits;
        let bits = match strategy {
            PermUpdateStrategy::AND => cur & perms.bits,
            PermUpdateStrategy::OR => cur | perms.bits,
            PermUpdateStrategy::OVERWRITE => perms.bits,
        };
        self.nodes[n].perms = NodePermissions { bits };
        proof {
            let f = FileView {
                node: before[n as int].node,
                perms: updated_perms(before[n as int].perms, perms@, strategy),
                stat: before[n as int].stat,
            };
            assert(before[n as int] == old(self).nodes@[n as int].view());
            assert(self.view() =~= before.update(n as int, f)) by {
                assert forall|j: int| 0 <= j < before.len() implies #[trigger] self.view()[j] == before.update(n as int, f)[j] by {
                    if j == n {
                        assert(self.view()[j] == self.nodes@[j].view());
                    }
                }
            }
            lemma_wf_replace(before, n as int, f);
        }
    }

    /// Unlinks `path`: see `unlink_spec`. The handle returned refers to the
    /// node that was detached.
    pub fn unlink(&mut self, path: Path<'_>, options: UnlinkOptions) -> (r: FSResult<File>)
        requires
            old(self).wf(),
        ensures
            final(self).wf(),
            final(self).view() == unlink_spec(old(self).view(), path@, options@).0,
            match r {
                Ok(f) => unlink_spec(old(self).view(), path@, options@).1 == Ok::<int, FSErrorKind>(f.node as int)
                    && f.cursor@ == 0 && f.perms@ == 0 && f.path is None,
                Err(e) => unlink_spec(old(self).view(), path@, options@).1 == Err::<int, FSErrorKind>(e.kind_of()),
            },
    {
        let pd = match path.parent() {
            Some(pp) => match self.traverse(pp, false, 0) {
                Ok(x) => x,
                Err(e) => return Err(e),
            },
            None => {
                let all = UnlinkOptions::NO_PRESERVE_ROOT().union(UnlinkOptions::FORCE()).union(
                    UnlinkOptions::RECURSIVE(),
                );
                assert(4u32 | 1u32 | 2u32 == 7u32) by (bit_vector);
                if options.contains(all) {
                    0
                } else {
                    return Err(FSError::simple(FSErrorKind::PermissionDenied));
                }
            },
        };
        self.unlink_in_dir(pd, path, options)
    }

    fn unlink_in_dir(&mut self, pd: usize, path: Path<'_>, options: UnlinkOptions) -> (r: FSResult<File>)
        requires
            old(self).wf(),
            pd < old(self).view().len(),
        ensures
            final(self).wf(),
            final(self).view() == unlink_in_dir(old(self).view(), pd as int, path@, options@).0,
            match r {
                Ok(f) => unlink_in_dir(old(self).view(), pd as int, path@, options@).1 == Ok::<int, FSErrorKind>(f.node as int)
                    && f.cursor@ == 0 && f.perms@ == 0 && f.path is None,
                Err(e) => unlink_in_dir(old(self).view(), pd as int, path@, options@).1 == Err::<int, FSErrorKind>(e.kind_of()),
            },
    {
        let ghost before = self.view();
        let perms = self.nodes[pd].perms;
        if !perms.w() || !perms.x() {
            return Err(FSError::simple(FSErrorKind::PermissionDenied));
        }
        if !self.is_dir(pd) {
            return Err(FSError::simple(FSErrorKind::InvalidPath));
        }
        let name = path.file();
        let c = match self.dir_lookup(pd, name) {
            None => return Err(FSError::simple(FSErrorKind::NotFound)),
            Some(c) => c,
        };
        let ghost e = entries_of(before[pd as int]);
        proof {
            lemma_entry_index(e, name@);
        }
        if self.is_dir(c) {
            if !options.contains(UnlinkOptions::RECURSIVE()) {
                return Err(FSError::simple(FSErrorKind::IsADir));
            }
        } else if ends_with_slash(path) {
            return Err(FSError::simple(FSErrorKind::NotADir));
        }
        proof {
            assert(before[pd as int] == self.nodes@[pd as int].view());
        }
        match &mut self.nodes[pd].node {
            RamNode::Dir(dd) => {
                let ghost m0 = dir_entries(dd.inner);
                assert(m0 == e);
                let _ = map_swap_remove(&mut dd.inner, name);
                proof {
                    let i = entry_index(e, name@);
                    lemma_entry_index_unique(e, name@, i);
                    assert(has_key(e, name@));
                    let w = choose|w: int| 0 <= w < e.len() && #[trigger] e[w].0 == name@
                        && dir_entries(dd.inner) == e.update(w, e.last()).drop_last();
                    lemma_entry_index_unique(e, name@, w);
                }
            },
            _ => {},
        }
        proof {
            let i = entry_index(e, name@);
            let f = FileView {
                node: NodeView::Dir(swap_removed(e, i)),
                perms: before[pd as int].perms,
                stat: before[pd as int].stat,
            };
            let target = before.update(pd as int, f);
            assert(self.view() =~= target) by {
                assert forall|j: int| 0 <= j < target.len() implies #[trigger] self.view()[j] == target[j] by {
                    if j == pd {
                        assert(self.view()[j] == self.nodes@[j].view());
                    }
                }
            }
            lemma_swap_removed(e, i);
            assert forall|d: int| 0 <= d < target.len() implies keys_unique(#[trigger] entries_of(target[d])) by {
                if d != pd {
                    assert(entries_of(target[d]) == entries_of(before[d]));
                }
            }
            assert forall|d: int, k: int|
                0 <= d < target.len() && 0 <= k < entries_of(target[d]).len() implies (#[trigger] entries_of(
                target[d],
            )[k]).1 < target.len() by {
                if d != pd {
                    assert(entries_of(target[d]) == entries_of(before[d]));
                } else {
                    let w = choose|w: int| 0 <= w < e.len() && #[trigger] swap_removed(e, i)[k] == e[w];
                    assert(entries_of(before[pd as int])[w] == e[w]);
                }
            }
        }
        Ok(File::new(c))
    }

    /// Reads node `n` to its end, from `offset` on, into `buf`.
    pub fn read_to_end(&self, n: usize, buf: &mut Vec<u8>, offset: usize) -> (r: FSResult<usize>)
        requires
            n < self.view().len(),
            self.view()[n as int].node matches NodeView::File(d) ==> 2 * d.len() <= isize::MAX,
        ensures
            match r {
                Ok(k) => !read_to_end_fails(self.view()[n as int], offset as int)
                    && read_to_end_ok(self.view()[n as int], offset as int, old(buf)@, final(buf)@, k as int),
                Err(e) => read_to_end_fails(self.view()[n as int], offset as int)
                    && e.kind_of() == FSErrorKind::UnexpectedEOF && final(buf)@ == old(buf)@,
            },
    {
        proof {
            assert(self.view()[n as int] == self.nodes@[n as int].view());
        }
        match &self.nodes[n].node {
            RamNode::SoftLink(l) => {
                let bytes = l.as_str().as_bytes();
                if offset > bytes.len() {
                    return Err(FSError::simple(FSErrorKind::UnexpectedEOF));
                }
                append_bytes(buf, bytes, offset);
                Ok(bytes.len() - offset)
            },
            RamNode::Dir(d) => {
                let listing = d.listing();
                append_bytes(buf, listing.as_slice(), 0);
                proof {
                    assert(listing@.skip(0) =~= listing@);
                }
                Ok(listing.len())
            },
            RamNode::File(f) => Self::file_to_end(f, buf, offset),
        }
    }

    /// Reads `data` from `offset` on into the front of `buf`, in rounds: a
    /// round that fills what is left of the buffer doubles it.
    fn file_to_end(data: &Vec<u8>, buf: &mut Vec<u8>, offset: usize) -> (r: FSResult<usize>)
        requires
            2 * data@.len() <= isize::MAX,
        ensures
            match r {
                Ok(k) => offset <= data@.len() && k == data@.len() - offset && final(buf)@.len() >= k
                    && final(buf)@.len() >= old(buf)@.len() && final(buf)@.take(k as int) == data@.skip(offset as int)
                    && forall|j: int| k <= j < final(buf)@.len() ==> #[trigger] final(buf)@[j] == (if j < old(buf)@.len() { old(buf)@[j] } else { 0u8 }),
                Err(e) => offset > data@.len() && e.kind_of() == FSErrorKind::UnexpectedEOF && final(buf)@ == old(buf)@,
            },
    {
        let total_len = data.len();
        if offset > total_len {
            return Err(FSError::simple(FSErrorKind::UnexpectedEOF));
        }
        let ghost orig = buf@;
        let total = total_len - offset;
        let mut written: usize = 0;
        loop
            invariant
                orig == old(buf)@,
                total_len == data@.len(),
                2 * total_len <= isize::MAX,
                offset <= total_len,
                total == total_len - offset,
                written <= total,
                written <= buf@.len(),
                buf@.len() >= orig.len(),
                buf@.take(written as int) == data@.subrange(offset as int, offset + written),
                forall|j: int| written <= j < buf@.len() ==> #[trigger] buf@[j] == (if j < orig.len() { orig[j] } else { 0u8 }),
            decreases 2 * (total - written) + (if buf@.len() == written { 1int } else { 0 }),
        {
            let remaining = buf.len() - written;
            let avail = total - written;
            let count = if avail < remaining { avail } else { remaining };
            let ghost before = buf@;
            let mut k: usize = 0;
            while k < count
                invariant
                    count <= avail,
                    count <= remaining,
                    remaining == before.len() - written,
                    avail == total - written,
                    total == total_len - offset,
                    total_len == data@.len(),
                    written <= total,
                    k <= count,
                    buf@.len() == before.len(),
                    forall|j: int| 0 <= j < written ==> #[trigger] buf@[j] == before[j],
                    forall|j: int| 0 <= j < k ==> #[trigger] buf@[written + j] == data@[offset + written + j],
                    forall|j: int| written + k <= j < before.len() ==> #[trigger] buf@[j] == before[j],
                decreases count - k,
            {
                buf.set(written + k, data[offset + written + k]);
                k = k + 1;
            }
            proof {
                assert(buf@.take(written + count) =~= data@.subrange(offset as int, offset + written + count)) by {
                    assert forall|j: int| 0 <= j < written + count implies #[trigger] buf@.take(written + count)[j]
                        == data@.subrange(offset as int, offset + written + count)[j] by {
                        if j < written {
                            assert(before.take(written as int)[j] == before[j]);
                        } else {
                            assert(buf@[written + (j - written)] == data@[offset + written + (j - written)]);
                        }
                    }
                }
            }
            if count == remaining {
                let len = buf.len();
                let grown = if len > 1 { len * 2 } else { 2 };
                buf.resize(grown, 0u8);
                proof {
                    assert forall|j: int| written + count <= j < buf@.len() implies #[trigger] buf@[j] == (if j < orig.len() { orig[j] } else { 0u8 }) by {
                        if j < len {
                            assert(buf@.subrange(0, len as int)[j] == buf@[j]);
                        }
                    }
                    assert(buf@.take(written + count) =~= data@.subrange(offset as int, offset + written + count)) by {
                        assert forall|j: int| 0 <= j < written + count implies #[trigger] buf@.take(written + count)[j]
                            == data@.subrange(offset as int, offset + written + count)[j] by {
                            assert(buf@.subrange(0, len as int)[j] == buf@[j]);
                        }
                    }
                }
            } else if count == 0 {
                proof {
                    assert(data@.subrange(offset as int, offset + written) =~= data@.skip(offset as int));
                }
                return Ok(written);
            }
            written = written + count;
        }
    }

    /// Flushes `path`: an in-memory file system has nothing to write back.
    pub fn flush(&self, path: Path<'_>) -> (r: FSResult<()>)
        ensures
            r is Ok,
    {
        Ok(())
    }

    /// Opens `path` (relative to this file system's root) with `options` at time `now`.
    pub fn open(&mut self, path: Path<'_>, options: OpenOptions, now: u64) -> (r: FSResult<Opened>)
        requires
            old(self).wf(),
        ensures
            final(self).wf(),
            final(self).view() == open_spec(old(self).view(), path@, options@, now).0,
            open_agrees(r, open_spec(old(self).view(), path@, options@, now).1),
            r matches Ok(Opened::File(f)) ==> f.node < final(self).view().len(),
    {
        let parent = match path.parent() {
            None => {
                let f = self.file_with_perms(0, options, now);
                return Ok(Opened::File(f));
            },
            Some(p) => p,
        };
        match self.traverse(parent, options.contains(OpenOptions::CREATE_ALL()), now) {
            Err(e) => Err(e),
            Ok(pd) => self.open_in_dir(pd, path, options, now),
        }
    }

    fn open_in_dir(&mut self, pd: usize, path: Path<'_>, options: OpenOptions, now: u64) -> (r: FSResult<Opened>)
        requires
            old(self).wf(),
            pd < old(self).view().len(),
        ensures
            final(self).wf(),
            final(self).view() == open_in_dir(old(self).view(), pd as int, path@, options@, now).0,
            open_agrees(r, open_in_dir(old(self).view(), pd as int, path@, options@, now).1),
            r matches Ok(Opened::File(f)) ==> f.node < final(self).view().len(),
    {
        let ghost f1 = self.view();
        if !self.is_dir(pd) {
            return Err(FSError::simple(FSErrorKind::InvalidPath));
        }
        let perms = self.nodes[pd].perms;
        if !perms.x() {
            return Err(FSError::simple(FSErrorKind::PermissionDenied));
        }
        let creating_flags = OpenOptions::CREATE_ALL().union(OpenOptions::CREATE_DIR()).union(
            OpenOptions::CREATE_LINK(),
        ).union(OpenOptions::CREATE());
        assert(64u32 | 32u32 | 128u32 | 16u32 == 240u32) by (bit_vector);
        assert(64u32 | 16u32 == 80u32) by (bit_vector);
        let is_creating = options.intersects(creating_flags);
        let name = path.file();
        let target_exists = self.dir_lookup(pd, name).is_some();
        if is_creating && !target_exists && !perms.w() {
            return Err(FSError::simple(FSErrorKind::PermissionDenied));
        }
        proof {
            let e = entries_of(f1[pd as int]);
            lemma_entry_index(e, name@);
        }
        if ends_with_slash(path) {
            self.open_node(pd, options, now)
        } else if options.contains(OpenOptions::CREATE_DIR()) {
            let n = self.ensure_entry(pd, name, 0, now);
            self.open_node(n, options, now)
        } else if options.contains(OpenOptions::CREATE_LINK()) {
            let n = self.ensure_entry(pd, name, 2, now);
            self.open_node(n, options, now)
        } else if options.intersects(OpenOptions::CREATE_ALL().union(OpenOptions::CREATE())) {
            let n = self.ensure_entry(pd, name, 1, now);
            self.open_node(n, options, now)
        } else {
            match self.dir_lookup(pd, name) {
                None => Err(FSError::simple(FSErrorKind::NotFound)),
                Some(n) => {
                    if !options.contains(OpenOptions::NO_FOLLOW_LINK()) {
                        match &self.nodes[n].node {
                            RamNode::SoftLink(p) => {
                                assert(self.view()[n as int] == self.nodes@[n as int].view());
                                assert(f1[n as int].node == NodeView::Link(p@));
                                return Ok(Opened::FollowLink(p.duplicate()));
                            },
                            _ => {},
                        }
                    }
                    self.open_node(n, options, now)
                },
            }
        }
    }
}

impl File {
    /// Reads the node at `offset` into the front of `buf`, if the handle may read.
    pub fn read(&self, fs: &RamFS, buf: &mut [u8], offset: usize) -> (r: FSResult<usize>)
        requires
            self.node < fs.view().len(),
        ensures
            read_agrees(
                r,
                old(buf)@,
                final(buf)@,
                handle_read_spec(self.perms@, fs.view()[self.node as int], offset as int, old(buf)@.len() as int),
            ),
    {
        if !self.may_read() {
            return Err(FSError::simple(FSErrorKind::PermissionDenied));
        }
        fs.read(self.node, buf, offset)
    }

    /// Writes `buf` to the node at `offset`, if the handle may write.
    pub fn write(&self, fs: &mut RamFS, buf: &[u8], offset: usize, now: u64) -> (r: FSResult<usize>)
        requires
            old(fs).wf(),
            self.node < old(fs).view().len(),
            old(fs).view()[self.node as int].node is File ==> offset + buf@.len() <= usize::MAX,
        ensures
            final(fs).wf(),
            final(fs).view() == handle_write_spec(self.perms@, old(fs).view(), self.node as int, buf@, offset as int, now).0,
            write_agrees(r, handle_write_spec(self.perms@, old(fs).view(), self.node as int, buf@, offset as int, now).1),
    {
        if !self.may_write() {
            return Err(FSError::simple(FSErrorKind::PermissionDenied));
        }
        fs.write(self.node, buf, offset, now)
    }

    /// Reads at the cursor and moves the cursor past what was read.
    pub fn read_continuous(&mut self, fs: &RamFS, buf: &mut [u8]) -> (r: FSResult<usize>)
        requires
            old(self).node < fs.view().len(),
        ensures
            read_agrees(
                r,
                old(buf)@,
                final(buf)@,
                handle_read_spec(old(self).perms@, fs.view()[old(self).node as int], old(self).cursor@ as int, old(buf)@.len() as int),
            ),
            final(self).cursor@ == cursor_after(old(self).cursor@, r),
            final(self).node == old(self).node,
            final(self).perms == old(self).perms,
            final(self).path == old(self).path,
    {
        let n = self.read(fs, buf, self.cursor.get())?;
        self.cursor.advance(n);
        Ok(n)
    }

    /// Writes at the cursor and moves the cursor past what was written.
    pub fn write_continuous(&mut self, fs: &mut RamFS, buf: &[u8], now: u64) -> (r: FSResult<usize>)
        requires
            old(fs).wf(),
            old(self).node < old(fs).view().len(),
            old(fs).view()[old(self).node as int].node is File ==> old(self).cursor@ + buf@.len() <= usize::MAX,
        ensures
            final(fs).wf(),
            final(fs).view() == handle_write_spec(old(self).perms@, old(fs).view(), old(self).node as int, buf@, old(self).cursor@ as int, now).0,
            write_agrees(r, handle_write_spec(old(self).perms@, old(fs).view(), old(self).node as int, buf@, old(self).cursor@ as int, now).1),
            final(self).cursor@ == cursor_after(old(self).cursor@, r),
            final(self).node == old(self).node,
            final(self).perms == old(self).perms,
            final(self).path == old(self).path,
    {
        let n = self.write(fs, buf, self.cursor.get(), now)?;
        self.cursor.advance(n);
        Ok(n)
    }
}

/// Whether the path ends with `/`.
pub fn ends_with_slash(path: Path<'_>) -> (r: bool)
    ensures
        r == ends_with_sep(path@),
{
    let s = path.as_str();
    let n = s.unicode_len();
    n > 0 && s.get_char(n - 1) == '/'
}


/// The listing of names with one more name at the end is the listing of
/// the others and then that name's entry.
proof fn lemma_listing_push(names: Seq<Seq<char>>, n: Seq<char>, i: int)
    requires
        0 <= i <= names.len(),
    ensures
        listing_from(names.push(n), i) == listing_from(names, i) + entry_bytes(n),
    decreases names.len() - i,
{
    if i == names.len() {
        assert(listing_from(names.push(n), i + 1) == Seq::<u8>::empty());
        assert(listing_from(names, i) == Seq::<u8>::empty());
        assert(entry_bytes(n) + Seq::<u8>::empty() =~= entry_bytes(n));
        assert(Seq::<u8>::empty() + entry_bytes(n) =~= entry_bytes(n));
    } else {
        lemma_listing_push(names, n, i + 1);
        assert(names.push(n)[i] == names[i]);
        assert(entry_bytes(names[i]) + (listing_from(names, i + 1) + entry_bytes(n)) =~= (entry_bytes(names[i])
            + listing_from(names, i + 1)) + entry_bytes(n));
    }
}

/// Law: making a directory `name` that directory `pd` does not hold files
/// a new, empty directory there, whose listing is empty and whose name
/// comes last in `pd`'s listing; making it again changes nothing and gives
/// the same node.
pub proof fn law_mkdir_then_list(fs: Seq<FileView>, pd: int, name: Seq<char>, now: u64, later: u64)
    requires
        fs_wf(fs),
        0 <= pd < fs.len(),
        is_dir(fs[pd]),
        lookup(entries_of(fs[pd]), name) is None,
    ensures
        ensure(fs, pd, name, fresh_dir(now)).1 == fs.len(),
        entries_of(ensure(fs, pd, name, fresh_dir(now)).0[fs.len() as int]) == Seq::<(Seq<char>, usize)>::empty(),
        listing_from(names_of(entries_of(ensure(fs, pd, name, fresh_dir(now)).0[fs.len() as int])), 0)
            == Seq::<u8>::empty(),
        listing_from(names_of(entries_of(ensure(fs, pd, name, fresh_dir(now)).0[pd])), 0)
            == listing_from(names_of(entries_of(fs[pd])), 0) + entry_bytes(name),
        ensure(ensure(fs, pd, name, fresh_dir(now)).0, pd, name, fresh_dir(later)) == ensure(fs, pd, name, fresh_dir(now)),
{
    let e = entries_of(fs[pd]);
    let (f2, n) = ensure(fs, pd, name, fresh_dir(now));
    let l = fs.len() as usize;
    assert(f2[pd] == fs.update(pd, FileView {
        node: NodeView::Dir(e.push((name, l))),
        perms: fs[pd].perms,
        stat: fs[pd].stat,
    })[pd]);
    assert(entries_of(f2[pd]) == e.push((name, l)));
    assert(entries_of(f2[n]) == Seq::<(Seq<char>, usize)>::empty());
    assert(names_of(Seq::<(Seq<char>, usize)>::empty()) =~= Seq::<Seq<char>>::empty());
    assert(names_of(e.push((name, l))) =~= names_of(e).push(name));
    lemma_listing_push(names_of(e), name, 0);
    lemma_entry_index(e, name);
    assert(insert_entry(e, name, l) == e.push((name, l)));
    lemma_insert_entry(e, name, l);
}

/// Law: once removing `path` from directory `pd` succeeds, the name is gone
/// from the directory, so opening the path there to read finds nothing; a
/// directory is refused with `IsADir`, and kept, unless the options say
/// `RECURSIVE`.
pub proof fn law_unlink_then_open(fs: Seq<FileView>, pd: int, path: Seq<char>, options: u32, now: u64)
    requires
        fs_wf(fs),
        0 <= pd < fs.len(),
        is_dir(fs[pd]),
    ensures
        unlink_in_dir(fs, pd, path, options).1 is Ok ==> lookup(
            entries_of(unlink_in_dir(fs, pd, path, options).0[pd]),
            path_file(path),
        ) is None,
        unlink_in_dir(fs, pd, path, options).1 is Ok && !ends_with_sep(path) ==> open_in_dir(
            unlink_in_dir(fs, pd, path, options).0,
            pd,
            path,
            1,
            now,
        ).1 == Err::<OpenView, FSErrorKind>(FSErrorKind::NotFound),
        perm_w(fs[pd].perms) && perm_x(fs[pd].perms) && lookup(entries_of(fs[pd]), path_file(path)) is Some
            && is_dir(fs[lookup(entries_of(fs[pd]), path_file(path))->0 as int]) && options & 2 != 2
            ==> unlink_in_dir(fs, pd, path, options) == (fs, Err::<int, FSErrorKind>(FSErrorKind::IsADir)),
{
    if unlink_in_dir(fs, pd, path, options).1 is Ok {
        law_unlink_removes(fs, pd, path, options);
        assert(1u32 & 240u32 == 0u32 && 1u32 & 32u32 != 32u32 && 1u32 & 128u32 != 128u32 && 1u32 & 80u32 == 0u32)
            by (bit_vector);
    }
}


/// Law: a link node written with the text of a target opens from its
/// directory, at any later time, when links are followed and nothing is
/// created, as a link to exactly that target; writing it succeeds and
/// counts the bytes written.
pub proof fn law_link_round_trip(
    fs: Seq<FileView>,
    pd: int,
    path: Seq<char>,
    n: int,
    to: Seq<char>,
    options: u32,
    now: u64,
    later: u64,
)
    requires
        0 <= pd < fs.len() <= usize::MAX,
        is_dir(fs[pd]),
        perm_x(fs[pd].perms),
        !ends_with_sep(path),
        0 <= n < fs.len(),
        lookup(entries_of(fs[pd]), path_file(path)) == Some(n as usize),
        fs[n].node is Link,
        options & 240 == 0,
        options & 256 != 256,
    ensures
        write_spec(fs, n, encode_utf8(to), 0, now).1 == Ok::<usize, FSErrorKind>(encode_utf8(to).len() as usize),
        open_in_dir(write_spec(fs, n, encode_utf8(to), 0, now).0, pd, path, options, later) == (
            write_spec(fs, n, encode_utf8(to), 0, now).0,
            Ok::<OpenView, FSErrorKind>(OpenView::Link(to)),
        ),
{
    vstd::utf8::encode_utf8_valid_utf8(to);
    vstd::utf8::encode_utf8_decode_utf8(to);
    let f2 = write_spec(fs, n, encode_utf8(to), 0, now).0;
    assert(n != pd);
    assert(f2[pd] == fs[pd]);
    assert(f2[n].node == NodeView::Link(to));
    assert(options & 32 != 32 && options & 128 != 128 && options & 80 == 0) by (bit_vector)
        requires
            options & 240 == 0,
    ;
}

} // verus!
