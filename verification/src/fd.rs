//! File handles: permissions, cursors, status records, and values that are
//! either owned or shared.
use std::sync::Arc;
use vstd::prelude::*;
use vstd::std_specs::convert::FromSpecImpl;

use crate::fs::OpenOptions;
use crate::path::{Path, PathBuf};

verus! {

/// Status of a file: creation and modification times (in seconds) and size.
#[derive(Debug, PartialEq, Eq, Clone, Copy, Structural)]
pub struct FStat {
    pub t_create: u64,
    pub t_mod: u64,
    pub size: usize,
}

impl FStat {
    /// A fresh status stamped with the time `now`, of size zero.
    pub fn new(now: u64) -> (r: Self)
        ensures
            r == (FStat { t_create: now, t_mod: now, size: 0 }),
    {
        Self { t_create: now, t_mod: now, size: 0 }
    }
}

impl Default for FStat {
    fn default() -> (r: Self)
        ensures
            r == (FStat { t_create: 0, t_mod: 0, size: 0 }),
    {
        Self { t_create: 0, t_mod: 0, size: 0 }
    }
}

/// What a handle may do with its file, as a set of bits.
#[derive(Clone, Copy, Debug, PartialEq, Eq, Structural)]
pub struct FPerms {
    bits: u8,
}

impl View for FPerms {
    type V = u8;

    closed spec fn view(&self) -> u8 {
        self.bits
    }
}

pub open spec fn has_perm(bits: u8, flag: u8) -> bool {
    bits & flag == flag
}

#[allow(non_snake_case)]
impl FPerms {
    pub fn empty() -> (r: Self)
        ensures
            r@ == 0,
    {
        Self { bits: 0 }
    }

    pub fn from_bits_retain(bits: u8) -> (r: Self)
        ensures
            r@ == bits,
    {
        Self { bits }
    }

    pub fn READ() -> (r: Self)
        ensures
            r@ == 1,
    {
        Self { bits: 1 }
    }

    pub fn WRITE() -> (r: Self)
        ensures
            r@ == 2,
    {
        Self { bits: 2 }
    }

    pub fn APPEND() -> (r: Self)
        ensures
            r@ == 4,
    {
        Self { bits: 4 }
    }

    pub fn TRUNCATE() -> (r: Self)
        ensures
            r@ == 8,
    {
        Self { bits: 8 }
    }

    pub fn union(self, other: Self) -> (r: Self)
        ensures
            r@ == self@ | other@,
    {
        Self { bits: self.bits | other.bits }
    }

    pub fn contains(&self, other: Self) -> (r: bool)
        ensures
            r == has_perm(self@, other@),
    {
        self.bits & other.bits == other.bits
    }

    /// The permissions that a set of open options asks for: reading,
    /// writing, appending and truncating carry over, nothing else does.
    pub fn from_options(value: OpenOptions) -> (r: Self)
        ensures
            r@ == #[verifier::truncate] ((value@ & 15) as u8),
    {
        let ghost v = value@;
        let mut zelf = FPerms::empty();
        if value.contains(OpenOptions::READ()) {
            zelf = zelf.union(FPerms::READ());
        }
        let ghost z1 = zelf@;
        assert(z1 == (v & 1) as u8) by (bit_vector)
            requires
                z1 == (if v & 1 == 1 { 0u8 | 1u8 } else { 0u8 }),
        ;
        if value.contains(OpenOptions::WRITE()) {
            zelf = zelf.union(FPerms::WRITE());
        }
        let ghost z2 = zelf@;
        assert(z2 == (v & 3) as u8) by (bit_vector)
            requires
                z1 == (v & 1) as u8,
                z2 == (if v & 2 == 2 { z1 | 2u8 } else { z1 }),
        ;
        if value.contains(OpenOptions::APPEND()) {
            zelf = zelf.union(FPerms::APPEND());
        }
        let ghost z3 = zelf@;
        assert(z3 == (v & 7) as u8) by (bit_vector)
            requires
                z2 == (v & 3) as u8,
                z3 == (if v & 4 == 4 { z2 | 4u8 } else { z2 }),
        ;
        if value.contains(OpenOptions::TRUNCATE()) {
            zelf = zelf.union(FPerms::TRUNCATE());
        }
        let ghost z4 = zelf@;
        assert(z4 == (v & 15) as u8) by (bit_vector)
            requires
                z3 == (v & 7) as u8,
                z4 == (if v & 8 == 8 { z3 | 8u8 } else { z3 }),
        ;
        zelf
    }
}

impl From<OpenOptions> for FPerms {
    fn from(value: OpenOptions) -> (r: Self) {
        FPerms::from_options(value)
    }
}

/// Converting open options keeps their permission bits.
pub proof fn lemma_fperms_from(v: OpenOptions)
    ensures
        <FPerms as vstd::std_specs::convert::FromSpec<OpenOptions>>::from_spec(v)@ == #[verifier::truncate] ((v@ & 15) as u8),
{
}

impl FromSpecImpl<OpenOptions> for FPerms {
    open spec fn obeys_from_spec() -> bool {
        true
    }

    closed spec fn from_spec(v: OpenOptions) -> FPerms {
        FPerms { bits: (v@ & 15) as u8 }
    }
}

impl Default for FPerms {
    fn default() -> (r: Self)
        ensures
            r@ == 0,
    {
        Self::empty()
    }
}

/// The position of a handle in its file.
#[derive(Debug, Default, Clone, Copy, PartialEq, Eq, Structural)]
pub struct FCursor {
    inner: usize,
}

impl View for FCursor {
    type V = usize;

    closed spec fn view(&self) -> usize {
        self.inner
    }
}

impl FCursor {
    pub fn at(offset: usize) -> (r: Self)
        ensures
            r@ == offset,
    {
        Self { inner: offset }
    }

    /// Moves the cursor forward by `n`, wrapping around at the end of `usize`.
    pub fn advance(&mut self, n: usize)
        ensures
            final(self)@ == vstd::wrapping::usize_specs::wrapping_add(old(self)@, n),
    {
        self.inner = self.inner.wrapping_add(n);
    }

    pub fn get(&self) -> (r: usize)
        ensures
            r == self@,
    {
        self.inner
    }

    pub fn set(&mut self, offset: usize)
        ensures
            final(self)@ == offset,
    {
        self.inner = offset;
    }
}

/// What hooks on a file are told about the handle that triggered them.
pub struct FileMetadata {
    pub path: Option<PathBuf>,
    pub cursor: FCursor,
    pub perms: FPerms,
}

/// A value that is either owned outright or shared behind a reference count.
pub enum MaybeOwned<T> {
    Owned(Box<T>),
    Shared(Arc<T>),
}

/// `Arc::from(Box<T>)`: moves a boxed value into a new reference-counted
/// allocation; the value is unchanged.
#[verifier::external_body]
fn box_into_arc<T>(b: Box<T>) -> (r: Arc<T>)
    ensures
        *r == *b,
{
    Arc::from(b)
}

/// `Arc::clone`: another pointer to the same value.
#[verifier::external_body]
fn arc_clone<T>(a: &Arc<T>) -> (r: Arc<T>)
    ensures
        *r == **a,
{
    Arc::clone(a)
}

/// `Arc::strong_count`: the number of strong pointers to the allocation.
/// It depends on what other pointers exist when the call is made; at least
/// the one passed in does.
#[verifier::external_body]
fn arc_strong_count<T>(a: &Arc<T>) -> (r: usize)
    ensures
        r >= 1,
{
    Arc::strong_count(a)
}

impl<T> MaybeOwned<T> {
    /// The value held, whether owned or shared.
    pub open spec fn value(&self) -> T {
        match self {
            MaybeOwned::Owned(b) => **b,
            MaybeOwned::Shared(a) => **a,
        }
    }

    pub open spec fn is_owned(&self) -> bool {
        self is Owned
    }

    pub fn new(value: T) -> (r: Self)
        ensures
            r.is_owned(),
            r.value() == value,
    {
        MaybeOwned::Owned(Box::new(value))
    }

    pub fn from_arc(value: Arc<T>) -> (r: Self)
        ensures
            !r.is_owned(),
            r.value() == *value,
    {
        MaybeOwned::Shared(value)
    }

    /// The same value, now shared.
    pub fn into_shared(self) -> (r: Self)
        ensures
            !r.is_owned(),
            r.value() == self.value(),
    {
        match self {
            MaybeOwned::Owned(t) => MaybeOwned::Shared(box_into_arc(t)),
            MaybeOwned::Shared(a) => MaybeOwned::Shared(a),
        }
    }

    /// How many holders the value has: one when owned, else the number of
    /// strong pointers (which other holders may change at any time).
    pub fn count(&self) -> (r: usize)
        ensures
            self.is_owned() ==> r == 1,
            r >= 1,
    {
        match self {
            MaybeOwned::Owned(_) => 1,
            MaybeOwned::Shared(s) => arc_strong_count(s),
        }
    }

    /// Another handle to a shared value; an owned value cannot be cloned this way.
    pub fn try_clone(&self) -> (r: Option<Self>)
        ensures
            self.is_owned() ==> r is None,
            !self.is_owned() ==> (r matches Some(c) && !c.is_owned() && c.value() == self.value()),
    {
        match self {
            MaybeOwned::Owned(_) => None,
            MaybeOwned::Shared(t) => Some(MaybeOwned::Shared(arc_clone(t))),
        }
    }

    /// Mutable access, which only an owned value grants.
    pub fn try_mut(&mut self) -> (r: Option<&mut T>)
        ensures
            old(self).is_owned() <==> r is Some,
            r matches Some(m) ==> *m == old(self).value() && final(self).is_owned()
                && final(self).value() == *final(m),
            r is None ==> *final(self) == *old(self),
    {
        match self {
            MaybeOwned::Owned(owned) => Some(&mut **owned),
            MaybeOwned::Shared(_) => None,
        }
    }

    /// Shared access to the value.
    pub fn as_ref(&self) -> (r: &T)
        ensures
            *r == self.value(),
    {
        match self {
            MaybeOwned::Owned(t) => &**t,
            MaybeOwned::Shared(t) => &**t,
        }
    }
}

} // verus!

verus! {

/// An open file: the node it refers to, where it stands in it, what it may
/// do, and the path it was opened by.
pub struct File {
    pub node: usize,
    pub cursor: FCursor,
    pub perms: FPerms,
    pub path: Option<PathBuf>,
}

impl File {
    /// A handle on `node` with no permissions, at offset zero, without a path.
    pub fn new(node: usize) -> (r: Self)
        ensures
            r.node == node,
            r.cursor@ == 0,
            r.perms@ == 0,
            r.path is None,
    {
        File { node, cursor: FCursor::at(0), perms: FPerms::empty(), path: None }
    }

    pub fn with_path(self, path: PathBuf) -> (r: Self)
        ensures
            r.node == self.node,
            r.cursor == self.cursor,
            r.perms == self.perms,
            r.path matches Some(p) && p@ == path@,
    {
        File { node: self.node, cursor: self.cursor, perms: self.perms, path: Some(path) }
    }

    pub fn set_cursor(&mut self, offset: usize)
        ensures
            final(self).cursor@ == offset,
            final(self).node == old(self).node,
            final(self).perms == old(self).perms,
            final(self).path == old(self).path,
    {
        self.cursor.set(offset);
    }

    pub fn may_write(&self) -> (r: bool)
        ensures
            r == has_perm(self.perms@, 2),
    {
        self.perms.contains(FPerms::WRITE())
    }

    /// Reading is allowed with read permission, and also with write permission.
    pub fn may_read(&self) -> (r: bool)
        ensures
            r == (has_perm(self.perms@, 1) || has_perm(self.perms@, 2)),
    {
        self.perms.contains(FPerms::READ()) || self.may_write()
    }

    pub fn get_path(&self) -> (r: Option<Path<'_>>)
        ensures
            match self.path {
                Some(p) => r matches Some(q) && q@ == p@,
                None => r is None,
            },
    {
        match &self.path {
            Some(p) => Some(p.as_path()),
            None => None,
        }
    }

    /// A second handle on the same node, with the same permissions and path,
    /// at offset zero.
    pub fn try_clone_without_offset(&self) -> (r: Option<Self>)
        ensures
            r matches Some(c) && c.node == self.node && c.cursor@ == 0 && c.perms == self.perms
                && match (c.path, self.path) {
                (Some(a), Some(b)) => a@ == b@,
                (None, None) => true,
                _ => false,
            },
    {
        let path = match &self.path {
            Some(p) => Some(p.duplicate()),
            None => None,
        };
        Some(File { node: self.node, cursor: FCursor::at(0), perms: self.perms, path })
    }
}

} // verus!
