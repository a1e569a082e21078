//! File-system vocabulary: node kinds, open and unlink options, and errors.
use vstd::prelude::*;

verus! {

pub const PROCFS_PATH: &'static str = "/proc";

pub const RAMFS_PATH: &'static str = "/ram";

/// What a file-system node is.
#[derive(Debug, Clone, Copy, PartialEq, Eq, Structural)]
pub enum NodeType {
    File,
    Dir,
    SymLink,
    Mount,
    Void,
}

/// Whether every bit of `flag` is set in `bits`.
pub open spec fn has_bits(bits: u32, flag: u32) -> bool {
    bits & flag == flag
}

/// How a path is to be opened, as a set of bits.
#[derive(Debug, Clone, Copy, PartialEq, Eq, Structural)]
pub struct OpenOptions {
    bits: u32,
}

impl View for OpenOptions {
    type V = u32;

    closed spec fn view(&self) -> u32 {
        self.bits
    }
}

#[allow(non_snake_case)]
impl OpenOptions {
    pub open spec fn has(self, flag: OpenOptions) -> bool {
        has_bits(self@, flag@)
    }

    pub open spec fn meets(self, flags: OpenOptions) -> bool {
        self@ & flags@ != 0
    }

    pub fn from_bits_retain(bits: u32) -> (r: Self)
        ensures
            r@ == bits,
    {
        Self { bits }
    }

    pub fn bits(&self) -> (r: u32)
        ensures
            r == self@,
    {
        self.bits
    }

    pub fn empty() -> (r: Self)
        ensures
            r@ == 0,
    {
        Self { bits: 0 }
    }

    pub fn READ() -> (r: Self)
        ensures
            r@ == 1,
    {
        Self { bits: 1 }
    }

    pub fn WRITE() -> (r: Self)
        ensures
            r@ == 2,
    {
        Self { bits: 2 }
    }

    pub fn APPEND() -> (r: Self)
        ensures
            r@ == 4,
    {
        Self { bits: 4 }
    }

    pub fn TRUNCATE() -> (r: Self)
        ensures
            r@ == 8,
    {
        Self { bits: 8 }
    }

    pub fn CREATE() -> (r: Self)
        ensures
            r@ == 16,
    {
        Self { bits: 16 }
    }

    pub fn CREATE_DIR() -> (r: Self)
        ensures
            r@ == 32,
    {
        Self { bits: 32 }
    }

    pub fn CREATE_ALL() -> (r: Self)
        ensures
            r@ == 64,
    {
        Self { bits: 64 }
    }

    pub fn CREATE_LINK() -> (r: Self)
        ensures
            r@ == 128,
    {
        Self { bits: 128 }
    }

    pub fn NO_FOLLOW_LINK() -> (r: Self)
        ensures
            r@ == 256,
    {
        Self { bits: 256 }
    }

    pub fn EXECUTE() -> (r: Self)
        ensures
            r@ == 512,
    {
        Self { bits: 512 }
    }

    /// Both sets of options together.
    pub fn union(self, other: Self) -> (r: Self)
        ensures
            r@ == self@ | other@,
    {
        Self { bits: self.bits | other.bits }
    }

    pub fn contains(&self, other: Self) -> (r: bool)
        ensures
            r == self.has(other),
    {
        self.bits & other.bits == other.bits
    }

    pub fn intersects(&self, other: Self) -> (r: bool)
        ensures
            r == self.meets(other),
    {
        self.bits & other.bits != 0
    }

    pub fn with_read(self) -> (r: Self)
        ensures
            r@ == self@ | 1,
    {
        self.union(Self::READ())
    }

    pub fn with_write(self) -> (r: Self)
        ensures
            r@ == self@ | 2,
    {
        self.union(Self::WRITE())
    }

    pub fn with_no_follow_symlink(self) -> (r: Self)
        ensures
            r@ == self@ | 256,
    {
        self.union(Self::NO_FOLLOW_LINK())
    }

    pub fn with_truncate(self) -> (r: Self)
        ensures
            r@ == self@ | 8,
    {
        self.union(Self::TRUNCATE())
    }

    pub fn with_append(self) -> (r: Self)
        ensures
            r@ == self@ | 4,
    {
        self.union(Self::APPEND())
    }
}

impl Default for OpenOptions {
    fn default() -> (r: Self)
        ensures
            r@ == 1,
    {
        Self::READ()
    }
}

/// Adding a flag sets it and keeps every flag that was set before.
pub proof fn law_with_flag_keeps_flags(bits: u32, flag: u32, other: u32)
    ensures
        has_bits(bits | flag, flag),
        has_bits(bits, other) ==> has_bits(bits | flag, other),
{
    assert(has_bits(bits | flag, flag)) by (bit_vector);
    assert(has_bits(bits, other) ==> has_bits(bits | flag, other)) by (bit_vector);
}

/// How a path is to be removed, as a set of bits.
#[derive(Debug, Clone, Copy, PartialEq, Eq, Structural)]
pub struct UnlinkOptions {
    bits: u32,
}

impl View for UnlinkOptions {
    type V = u32;

    closed spec fn view(&self) -> u32 {
        self.bits
    }
}

#[allow(non_snake_case)]
impl UnlinkOptions {
    pub open spec fn has(self, flag: UnlinkOptions) -> bool {
        has_bits(self@, flag@)
    }

    pub fn from_bits_retain(bits: u32) -> (r: Self)
        ensures
            r@ == bits,
    {
        Self { bits }
    }

    pub fn empty() -> (r: Self)
        ensures
            r@ == 0,
    {
        Self { bits: 0 }
    }

    pub fn FORCE() -> (r: Self)
        ensures
            r@ == 1,
    {
        Self { bits: 1 }
    }

    pub fn RECURSIVE() -> (r: Self)
        ensures
            r@ == 2,
    {
        Self { bits: 2 }
    }

    pub fn NO_PRESERVE_ROOT() -> (r: Self)
        ensures
            r@ == 4,
    {
        Self { bits: 4 }
    }

    pub fn union(self, other: Self) -> (r: Self)
        ensures
            r@ == self@ | other@,
    {
        Self { bits: self.bits | other.bits }
    }

    pub fn contains(&self, other: Self) -> (r: bool)
        ensures
            r == self.has(other),
    {
        self.bits & other.bits == other.bits
    }

    pub fn with_force(self) -> (r: Self)
        ensures
            r@ == self@ | 1,
    {
        self.union(Self::FORCE())
    }

    pub fn with_rmdir(self) -> (r: Self)
        ensures
            r@ == self@ | 2,
    {
        self.union(Self::RECURSIVE())
    }
}

impl Default for UnlinkOptions {
    fn default() -> (r: Self)
        ensures
            r@ == 0,
    {
        Self::empty()
    }
}

/// The kinds of file-system failure.
#[derive(Debug, PartialEq, Eq, Clone, Copy, Structural)]
pub enum FSErrorKind {
    NotFound,
    PermissionDenied,
    AlreadyExists,
    WouldBlock,
    NotADir,
    IsADir,
    DirNotEmpty,
    TimedOut,
    StorageFull,
    FileTooLarge,
    Deadlock,
    InvalidFilename,
    InvalidPath,
    OOM,
    UnexpectedEOF,
    InProgress,
    Other,
    NotSupported,
}

/// The cause carried by a custom file-system error.
#[derive(Debug, PartialEq, Eq, Clone, Copy, Structural)]
pub enum ErrorCause {
    /// A mount point was taken; the older mount was swapped out.
    MountExists,
    /// A device path was taken; the older device, this one, was swapped out.
    DeviceExists(u64),
}

/// How a file-system error is represented.
#[derive(Debug, PartialEq, Eq, Clone, Copy)]
pub enum FSErrRepr {
    Simple(FSErrorKind),
    SimpleMessage { msg: &'static str, kind: FSErrorKind },
    Custom { kind: FSErrorKind, err: ErrorCause },
}

/// A file-system error.
#[derive(Debug, PartialEq, Eq, Clone, Copy)]
pub struct FSError {
    repr: FSErrRepr,
}

pub type FSResult<T> = Result<T, FSError>;

impl FSError {
    pub open spec fn kind_of(self) -> FSErrorKind {
        match self.repr() {
            FSErrRepr::Simple(k) => k,
            FSErrRepr::SimpleMessage { msg: _, kind } => kind,
            FSErrRepr::Custom { kind, err: _ } => kind,
        }
    }

    pub closed spec fn repr(self) -> FSErrRepr {
        self.repr
    }

    pub fn simple(kind: FSErrorKind) -> (r: Self)
        ensures
            r.repr() == FSErrRepr::Simple(kind),
            r.kind_of() == kind,
    {
        Self { repr: FSErrRepr::Simple(kind) }
    }

    pub fn with_message(kind: FSErrorKind, msg: &'static str) -> (r: Self)
        ensures
            r.repr() == (FSErrRepr::SimpleMessage { msg, kind }),
            r.kind_of() == kind,
    {
        Self { repr: FSErrRepr::SimpleMessage { msg, kind } }
    }

    pub fn custom(kind: FSErrorKind, err: ErrorCause) -> (r: Self)
        ensures
            r.repr() == (FSErrRepr::Custom { kind, err }),
            r.kind_of() == kind,
    {
        Self { repr: FSErrRepr::Custom { kind, err } }
    }

    pub fn kind(&self) -> (r: &FSErrorKind)
        ensures
            *r == self.kind_of(),
    {
        match &self.repr {
            FSErrRepr::Simple(kind) => kind,
            FSErrRepr::SimpleMessage { msg: _, kind } => kind,
            FSErrRepr::Custom { kind, err: _ } => kind,
        }
    }

    pub fn get_repr(&self) -> (r: FSErrRepr)
        ensures
            r == self.repr(),
    {
        self.repr
    }
}


/// What an error kind reads as.
pub open spec fn kind_message(k: FSErrorKind) -> Seq<char> {
    match k {
        FSErrorKind::NotFound => "Node not found"@,
        FSErrorKind::PermissionDenied => "Permission denied"@,
        FSErrorKind::AlreadyExists => "Node exists"@,
        FSErrorKind::WouldBlock => "Op would block"@,
        FSErrorKind::NotADir => "Node not a directory"@,
        FSErrorKind::IsADir => "Node is a directory"@,
        FSErrorKind::DirNotEmpty => "Directory is not empty"@,
        FSErrorKind::TimedOut => "Op timed out"@,
        FSErrorKind::StorageFull => "Storage full"@,
        FSErrorKind::FileTooLarge => "File too large"@,
        FSErrorKind::Deadlock => "would deadlock"@,
        FSErrorKind::InvalidFilename => "Invalid filename"@,
        FSErrorKind::InvalidPath => "Invalid Path"@,
        FSErrorKind::OOM => "Out of memory"@,
        FSErrorKind::UnexpectedEOF => "unexpected EOF"@,
        FSErrorKind::InProgress => "Op is in progress"@,
        FSErrorKind::Other => "Unspecified"@,
        FSErrorKind::NotSupported => "This Operation is not supported"@,
    }
}

/// What the cause of a custom error reads as.
pub open spec fn cause_message(c: ErrorCause) -> Seq<char> {
    match c {
        ErrorCause::MountExists => "the mount already exists. The old mount was swapped out and returned"@,
        ErrorCause::DeviceExists(_) => "the device is already registered. the old device was swapped out and returned"@,
    }
}

/// What an error reads as: a simple one as its kind; one with a message
/// names its kind and the message; a custom one its kind and its cause.
pub open spec fn error_message(e: FSErrRepr) -> Seq<char> {
    match e {
        FSErrRepr::Simple(k) => kind_message(k),
        FSErrRepr::SimpleMessage { msg, kind } => "Error with kind: "@ + kind_message(kind) + ", msg: "@ + msg@,
        FSErrRepr::Custom { kind, err } => "Custom error with kind: "@ + kind_message(kind) + ", err: "@ + cause_message(err),
    }
}

impl FSErrorKind {
    /// What the kind reads as; see `kind_message`.
    pub fn text(&self) -> (r: &'static str)
        ensures
            r@ == kind_message(*self),
    {
        match self {
            FSErrorKind::NotFound => "Node not found",
            FSErrorKind::PermissionDenied => "Permission denied",
            FSErrorKind::AlreadyExists => "Node exists",
            FSErrorKind::WouldBlock => "Op would block",
            FSErrorKind::NotADir => "Node not a directory",
            FSErrorKind::IsADir => "Node is a directory",
            FSErrorKind::DirNotEmpty => "Directory is not empty",
            FSErrorKind::TimedOut => "Op timed out",
            FSErrorKind::StorageFull => "Storage full",
            FSErrorKind::FileTooLarge => "File too large",
            FSErrorKind::Deadlock => "would deadlock",
            FSErrorKind::InvalidFilename => "Invalid filename",
            FSErrorKind::InvalidPath => "Invalid Path",
            FSErrorKind::OOM => "Out of memory",
            FSErrorKind::UnexpectedEOF => "unexpected EOF",
            FSErrorKind::InProgress => "Op is in progress",
            FSErrorKind::Other => "Unspecified",
            FSErrorKind::NotSupported => "This Operation is not supported",
        }
    }
}

impl ErrorCause {
    /// What the cause reads as; see `cause_message`.
    pub fn text(&self) -> (r: &'static str)
        ensures
            r@ == cause_message(*self),
    {
        match self {
            ErrorCause::MountExists => "the mount already exists. The old mount was swapped out and returned",
            ErrorCause::DeviceExists(_) => "the device is already registered. the old device was swapped out and returned",
        }
    }
}

impl FSError {
    /// What the error reads as; see `error_message`.
    pub fn message(&self) -> (r: String)
        ensures
            r@ == error_message(self.repr()),
    {
        match self.repr {
            FSErrRepr::Simple(k) => String::from_str(k.text()),
            FSErrRepr::SimpleMessage { msg, kind } => {
                let mut m = String::from_str("Error with kind: ");
                m.append(kind.text());
                m.append(", msg: ");
                m.append(msg);
                m
            },
            FSErrRepr::Custom { kind, err } => {
                let mut m = String::from_str("Custom error with kind: ");
                m.append(kind.text());
                m.append(", err: ");
                m.append(err.text());
                m
            },
        }
    }
}

} // verus!
