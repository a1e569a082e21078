//! The verified core of a small hobby kernel: paths, file systems, file
//! handles, tasks, scheduling, pipes, terminal buffers and drawing geometry.
use vstd::prelude::*;

pub mod chars;
pub mod path;
pub mod fs;
pub mod fd;
pub mod files;
pub mod frames;
pub mod dirmap;
pub mod ramfs;
pub mod vfs;
pub mod procfs;
pub mod sys;
pub mod region;
pub mod procs;
pub mod fs_util;
pub mod task;
pub mod sched;
pub mod tty;
pub mod wait;
pub mod observer;
pub mod mem;
pub mod shapes;
pub mod term;

use crate::fs::FSError;
use crate::task::ThreadingError;

verus! {

/// What a test run tells QEMU on exit.
#[derive(Debug, Clone, Copy, PartialEq, Eq, Structural)]
pub enum QemuExitCode {
    Success,
    Failed,
}

impl QemuExitCode {
    /// The value written to QEMU's exit port.
    pub fn code(&self) -> (r: u32)
        ensures
            r == (match self {
                QemuExitCode::Success => 0x10u32,
                QemuExitCode::Failed => 0x11u32,
            }),
    {
        match self {
            QemuExitCode::Success => 0x10,
            QemuExitCode::Failed => 0x11,
        }
    }
}

/// How a test ended, as the test runner reports it.
#[derive(Debug, Clone, Copy, PartialEq, Eq, Structural)]
pub enum TestVerdict {
    /// It returned zero and was not meant to panic.
    Passed,
    /// It was meant to panic, and failed or returned something else.
    PanickedAsExpected,
    /// Anything else: the run counts as failed.
    Failed,
}

/// The verdict on a test from what its task gave back (`None` when joining
/// it failed) and whether it was meant to panic.
pub fn test_verdict(returned: Option<usize>, should_panic: bool) -> (r: TestVerdict)
    ensures
        r == (match returned {
            Some(v) => if v == 0 && !should_panic {
                TestVerdict::Passed
            } else if should_panic && v != 0 {
                TestVerdict::PanickedAsExpected
            } else {
                TestVerdict::Failed
            },
            None => if should_panic {
                TestVerdict::PanickedAsExpected
            } else {
                TestVerdict::Failed
            },
        }),
{
    match returned {
        Some(v) => if v == 0 && !should_panic {
            TestVerdict::Passed
        } else if should_panic && v != 0 {
            TestVerdict::PanickedAsExpected
        } else {
            TestVerdict::Failed
        },
        None => if should_panic {
            TestVerdict::PanickedAsExpected
        } else {
            TestVerdict::Failed
        },
    }
}

/// What the test run tells QEMU at its end: failure when any test failed.
pub fn run_exit_code(any_failed: bool) -> (r: QemuExitCode)
    ensures
        r == (if any_failed {
            QemuExitCode::Failed
        } else {
            QemuExitCode::Success
        }),
{
    if any_failed {
        QemuExitCode::Failed
    } else {
        QemuExitCode::Success
    }
}

/// An error of the kernel: from input and output, from threading, or an
/// unexpected one with a message.
#[derive(Debug)]
pub enum KernelError {
    IO(FSError),
    Threading(ThreadingError),
    Unexpected(&'static str),
}

impl From<FSError> for KernelError {
    fn from(value: FSError) -> (r: Self) {
        KernelError::IO(value)
    }
}

impl vstd::std_specs::convert::FromSpecImpl<FSError> for KernelError {
    open spec fn obeys_from_spec() -> bool {
        true
    }

    open spec fn from_spec(v: FSError) -> Self {
        KernelError::IO(v)
    }
}

impl From<ThreadingError> for KernelError {
    fn from(value: ThreadingError) -> (r: Self) {
        KernelError::Threading(value)
    }
}

impl vstd::std_specs::convert::FromSpecImpl<ThreadingError> for KernelError {
    open spec fn obeys_from_spec() -> bool {
        true
    }

    open spec fn from_spec(v: ThreadingError) -> Self {
        KernelError::Threading(v)
    }
}

/// Why an ELF image could not be loaded.
#[derive(Debug, Clone, Copy, PartialEq, Eq, Structural)]
pub enum ElfError {
    Unknown,
}

} // verus!
