//! The decisions inside the system calls: how a call's outcome goes back in
//! the two return registers; when a waiting call returns at once, when it
//! waits and what it reports after waiting; where a mapping goes; and what
//! a spawn does to the files of the new process. The waiting, the clock and
//! the page tables themselves stay with the caller, which hands in what it
//! saw.
use vstd::prelude::*;

use crate::files::{FdTable, is_next_fd};
use crate::mem::{align_up, is_pow2};
use crate::task::TaskState;

verus! {

/// The errors these system calls report.
#[derive(Debug, Clone, Copy, PartialEq, Eq, Structural)]
pub enum SysErr {
    Cancelled,
    WouldBlock,
    NoChild,
    NoProcess,
    BadFd,
    NoFile,
}

/// The two return registers after a system call, from what they held
/// before: a number above `max` names no call, leaves the first and puts
/// `fail` in the second (no call is made, and `res` plays no part); a call
/// that succeeded puts its value in the first and `success` in the second;
/// a call that failed leaves the first and puts its error in the second.
pub fn syscall_regs(num: u64, max: u64, res: Result<i64, i64>, regs: (i64, i64), success: i64, fail: i64) -> (r: (i64, i64))
    ensures
        num > max ==> r == (regs.0, fail),
        num <= max ==> r == (match res {
            Ok(v) => (v, success),
            Err(e) => (regs.0, e),
        }),
{
    if num > max {
        return (regs.0, fail);
    }
    match res {
        Ok(v) => (v, success),
        Err(e) => (regs.0, e),
    }
}

/// How a waited-for task changed.
#[derive(Debug, Clone, Copy, PartialEq, Eq, Structural)]
pub enum StateChange {
    Wakeup,
    Block,
    Exit,
}

/// What a task's state, after a wait, reports: running or ready, that it
/// woke up; blocking or sleeping, that it blocked; a zombie, or no task at
/// all, that it exited.
pub open spec fn change_of(state: Option<TaskState>) -> StateChange {
    match state {
        Some(TaskState::Running) | Some(TaskState::Ready) => StateChange::Wakeup,
        Some(TaskState::Blocking) | Some(TaskState::Sleeping) => StateChange::Block,
        None | Some(TaskState::Zombie) => StateChange::Exit,
    }
}

pub fn state_change(state: Option<TaskState>) -> (r: StateChange)
    ensures
        r == change_of(state),
{
    match state {
        Some(TaskState::Running) | Some(TaskState::Ready) => StateChange::Wakeup,
        Some(TaskState::Blocking) | Some(TaskState::Sleeping) => StateChange::Block,
        None | Some(TaskState::Zombie) => StateChange::Exit,
    }
}

/// Whether a process being waited for is done: it is gone or a zombie.
pub fn process_done(state: Option<TaskState>) -> (r: bool)
    ensures
        r == (state is None || state == Some(TaskState::Zombie)),
{
    match state {
        None => true,
        Some(TaskState::Zombie) => true,
        Some(_) => false,
    }
}

/// How a wait for a task begins.
#[derive(Debug, Clone, Copy, PartialEq, Eq, Structural)]
pub enum WaitStart {
    /// The call fails at once.
    Refused(SysErr),
    /// The call returns at once, reporting no change.
    Unchanged,
    /// The caller waits for the task, and also for a timer when `timer`.
    Wait { timer: bool },
}

/// Waiting for a process: only waiting for its exit is supported
/// (`w_exit`); a zero timeout returns at once; not blocking (`noblock`)
/// would block; otherwise the caller waits, with a timer for a positive
/// timeout.
pub fn wait_pid_start(timeout: i64, w_exit: bool, noblock: bool) -> (r: WaitStart)
    ensures
        r == (if !w_exit {
            WaitStart::Refused(SysErr::Cancelled)
        } else if timeout == 0 {
            WaitStart::Unchanged
        } else if noblock {
            WaitStart::Refused(SysErr::WouldBlock)
        } else {
            WaitStart::Wait { timer: timeout > 0 }
        }),
{
    if !w_exit {
        WaitStart::Refused(SysErr::Cancelled)
    } else if timeout == 0 {
        WaitStart::Unchanged
    } else if noblock {
        WaitStart::Refused(SysErr::WouldBlock)
    } else {
        WaitStart::Wait { timer: timeout > 0 }
    }
}

/// Joining a thread: an unknown thread is no child; a zero timeout
/// returns at once; not blocking would block; otherwise the caller waits,
/// with a timer for a positive timeout.
pub fn thread_join_start(known: bool, timeout: i64, noblock: bool) -> (r: WaitStart)
    ensures
        r == (if !known {
            WaitStart::Refused(SysErr::NoChild)
        } else if timeout == 0 {
            WaitStart::Unchanged
        } else if noblock {
            WaitStart::Refused(SysErr::WouldBlock)
        } else {
            WaitStart::Wait { timer: timeout > 0 }
        }),
{
    if !known {
        WaitStart::Refused(SysErr::NoChild)
    } else if timeout == 0 {
        WaitStart::Unchanged
    } else if noblock {
        WaitStart::Refused(SysErr::WouldBlock)
    } else {
        WaitStart::Wait { timer: timeout > 0 }
    }
}

/// What a wait ends with: a wait that could not be made means there is no
/// such process; otherwise the change the task's state reports.
pub fn wait_outcome(waited: bool, state: Option<TaskState>) -> (r: Result<StateChange, SysErr>)
    ensures
        r == (if waited {
            Ok::<StateChange, SysErr>(change_of(state))
        } else {
            Err::<StateChange, SysErr>(SysErr::NoProcess)
        }),
{
    if waited {
        Ok(state_change(state))
    } else {
        Err(SysErr::NoProcess)
    }
}

/// Whether a buffer of `len` elements of `elem_size` bytes at address
/// `base` lies wholly in user space, below the direct map at `hhdm`: it is
/// not null, and it starts and ends below that address.
pub fn valid_user_range(base: usize, len: usize, elem_size: usize, hhdm: usize) -> (r: bool)
    requires
        base != 0 && base < hhdm ==> base + len * elem_size <= usize::MAX,
    ensures
        r == (base != 0 && base < hhdm && base + len * elem_size < hhdm),
{
    if base == 0 || base >= hhdm {
        return false;
    }
    proof {
        assert(len * elem_size <= usize::MAX) by (nonlinear_arith)
            requires
                base + len * elem_size <= usize::MAX,
                base >= 0,
        ;
    }
    let bytes = len * elem_size;
    base + bytes < hhdm
}

/// What a read does next.
#[derive(Debug, Clone, Copy, PartialEq, Eq, Structural)]
pub enum ReadStep {
    /// Return this many bytes.
    Return(usize),
    /// Wait (for the timer, the file, or both) and read again.
    Wait,
    /// Nothing to wait for: the read would block.
    WouldBlock,
}

/// After the first read gave `n` bytes: something read, or a zero timeout,
/// returns at once; otherwise the read waits, if there is something to
/// wait for: a timer for a positive timeout, or the file's waiter.
pub fn read_first(n: usize, timeout: i64, has_waiter: bool) -> (r: ReadStep)
    ensures
        r == (if n > 0 || timeout == 0 {
            ReadStep::Return(n)
        } else if timeout < 0 && !has_waiter {
            ReadStep::WouldBlock
        } else {
            ReadStep::Wait
        }),
{
    if n > 0 || timeout == 0 {
        ReadStep::Return(n)
    } else if timeout < 0 && !has_waiter {
        ReadStep::WouldBlock
    } else {
        ReadStep::Wait
    }
}

/// After a later read gave `n` bytes at time `now`: nothing read, with no
/// timeout (a negative one) or before the deadline `until`, waits again;
/// otherwise the read returns.
pub fn read_again(n: usize, timeout: i64, until: u64, now: u64) -> (r: ReadStep)
    ensures
        r == (if n == 0 && (timeout < 0 || until > now) {
            ReadStep::Wait
        } else {
            ReadStep::Return(n)
        }),
{
    if n == 0 && (timeout < 0 || until > now) {
        ReadStep::Wait
    } else {
        ReadStep::Return(n)
    }
}

/// The size of a page.
pub const PAGE_SIZE: usize = 4096;

/// The addresses of an anonymous or file mapping.
#[derive(Debug, Clone, Copy, PartialEq, Eq, Structural)]
pub struct MmapPlan {
    /// The address asked for, or the task's next free one.
    pub addr: usize,
    /// That address rounded up to a page: where the mapping starts.
    pub base: usize,
    /// The task's next free address afterwards.
    pub next_addr: usize,
}

/// Planning a mapping of `len` bytes: a valid address asked for is used as
/// it is; otherwise the task's next free address is taken, and the next one
/// moves past it, rounded up to a page, by `len`. The mapping starts at the
/// address rounded up to a page.
pub fn mmap_plan(next_addr: usize, addr: usize, addr_valid: bool, len: usize) -> (r: MmapPlan)
    requires
        addr_valid ==> addr + PAGE_SIZE - 1 <= usize::MAX,
        !addr_valid ==> next_addr + PAGE_SIZE - 1 + len <= usize::MAX,
    ensures
        r.addr == (if addr_valid {
            addr
        } else {
            next_addr
        }),
        r.base % PAGE_SIZE == 0 && r.addr <= r.base < r.addr + PAGE_SIZE,
        r.next_addr == (if addr_valid {
            next_addr as int
        } else {
            r.base + len
        }),
{
    proof {
        assert(is_pow2(4096usize)) by (bit_vector);
    }
    let (a, next) = if addr_valid {
        (addr, next_addr)
    } else {
        let up = align_up(next_addr, PAGE_SIZE);
        (next_addr, up + len)
    };
    let base = align_up(a, PAGE_SIZE);
    proof {
        assert(base & 4095 == 0 ==> base % 4096 == 0) by (bit_vector);
    }
    MmapPlan { addr: a, base, next_addr: next }
}

/// How much of a file a mapping covers: what was asked for, at most the
/// file's length.
pub fn mmap_file_len(len: usize, file_len: usize) -> (r: usize)
    ensures
        r == (if len < file_len {
            len
        } else {
            file_len
        }),
{
    if len < file_len {
        len
    } else {
        file_len
    }
}

/// After a failed mapping, the task's next free address: when it still
/// equals the address the mapping was planned at, it is set past that
/// address rounded up to a page by `len`; otherwise it is left alone.
pub fn mmap_rollback(current_next: usize, addr: usize, len: usize) -> (r: usize)
    requires
        addr + PAGE_SIZE - 1 + len <= usize::MAX,
    ensures
        current_next != addr ==> r == current_next,
        current_next == addr ==> (r - len) % (PAGE_SIZE as int) == 0 && addr <= r - len < addr + PAGE_SIZE,
{
    if current_next == addr {
        proof {
            assert(is_pow2(4096usize)) by (bit_vector);
        }
        let up = align_up(addr, PAGE_SIZE);
        proof {
            assert(up & 4095 == 0 ==> up % 4096 == 0) by (bit_vector);
        }
        up + len
    } else {
        current_next
    }
}

/// Duplicates descriptor `old_fd` of `files`: the file open there is
/// opened again at `new_fd` when that is not negative, else at the next
/// descriptor, which is returned. A descriptor with nothing open is
/// refused.
pub fn dup<F: Clone>(files: &mut FdTable<F>, old_fd: u32, new_fd: i32) -> (r: Result<u32, SysErr>)
    requires
        new_fd >= 0 || !old(files)@.contains_key(u32::MAX),
    ensures
        match r {
            Ok(d) => {
                &&& old(files)@.contains_key(old_fd)
                &&& new_fd >= 0 ==> d == new_fd as u32
                &&& new_fd < 0 ==> is_next_fd(old(files)@, d)
                &&& final(files)@.dom() == old(files)@.dom().insert(d)
                &&& cloned(old(files)@[old_fd], final(files)@[d])
                &&& forall|k: u32| k != d && old(files)@.contains_key(k) ==> final(files)@[k] == old(files)@[k]
            },
            Err(e) => e == SysErr::BadFd && !old(files)@.contains_key(old_fd) && final(files)@ == old(files)@,
        },
{
    let next_fd = if new_fd >= 0 {
        new_fd as u32
    } else {
        files.next_fd()
    };
    let old = match files.fd(old_fd) {
        Some(f) => f,
        None => return Err(SysErr::BadFd),
    };
    files.add_fd(next_fd, old);
    Ok(next_fd)
}

/// A change to the files of a process being spawned.
pub enum FdAction<F> {
    /// Open the file handed in (opened by the caller) at the descriptor.
    Open(F, u32),
    /// Close the descriptor.
    Close(u32),
    /// Open the file of the first descriptor at the second as well.
    Dup(u32, u32),
    /// Close every descriptor.
    Clear,
    /// Open the file of the spawning process's first descriptor at the
    /// second.
    Inherit(u32, u32),
}

/// The files of the spawning process, when there is one, as a map.
pub open spec fn parent_view<F>(parent: Option<&FdTable<F>>) -> Option<Map<u32, F>> {
    match parent {
        Some(p) => Some(p@),
        None => None,
    }
}

/// Whether applying `a` to the files `m` may leave the files `m2` with the
/// outcome `r`, `parent` being the files of the spawning process: opening
/// or closing a descriptor, or clearing all, always succeeds; duplicating
/// or inheriting puts a clone of the source's file at the target, and fails
/// with `NoFile` when the source has nothing open (with `NoProcess` when
/// there is no spawning process to inherit from), changing nothing.
pub open spec fn fd_step<F: Clone>(
    m: Map<u32, F>,
    parent: Option<Map<u32, F>>,
    a: FdAction<F>,
    m2: Map<u32, F>,
    r: Result<(), SysErr>,
) -> bool {
    match a {
        FdAction::Open(f, fd) => r is Ok && m2 == m.insert(fd, f),
        FdAction::Close(fd) => r is Ok && m2 == m.remove(fd),
        FdAction::Dup(from, to) => if m.contains_key(from) {
            &&& r is Ok
            &&& m2.dom() == m.dom().insert(to)
            &&& cloned(m[from], m2[to])
            &&& forall|k: u32| k != to && m.contains_key(k) ==> m2[k] == m[k]
        } else {
            r == Err::<(), SysErr>(SysErr::NoFile) && m2 == m
        },
        FdAction::Clear => r is Ok && m2 == Map::<u32, F>::empty(),
        FdAction::Inherit(from, to) => match parent {
            None => r == Err::<(), SysErr>(SysErr::NoProcess) && m2 == m,
            Some(p) => if p.contains_key(from) {
                &&& r is Ok
                &&& m2.dom() == m.dom().insert(to)
                &&& cloned(p[from], m2[to])
                &&& forall|k: u32| k != to && m.contains_key(k) ==> m2[k] == m[k]
            } else {
                r == Err::<(), SysErr>(SysErr::NoFile) && m2 == m
            },
        },
    }
}

/// Whether applying `actions` in order to the files `m` may leave the files
/// `fin` with the outcome `r`: each action as `fd_step` says, the first
/// failure ending the run with its error.
pub open spec fn fd_run<F: Clone>(
    m: Map<u32, F>,
    parent: Option<Map<u32, F>>,
    actions: Seq<FdAction<F>>,
    fin: Map<u32, F>,
    r: Result<(), SysErr>,
) -> bool
    decreases actions.len(),
{
    if actions.len() == 0 {
        fin == m && r is Ok
    } else {
        exists|m1: Map<u32, F>, r1: Result<(), SysErr>|
            #[trigger] fd_step(m, parent, actions[0], m1, r1) && if r1 is Err {
                fin == m1 && r == r1
            } else {
                fd_run(m1, parent, actions.drop_first(), fin, r)
            }
    }
}

/// Applies `action` to the files of a process being spawned; `parent`
/// holds the files of the spawning process, when there is one. See
/// `fd_step`: a failed action changes nothing.
pub fn apply_fd_action<F: Clone>(files: &mut FdTable<F>, parent: Option<&FdTable<F>>, action: FdAction<F>) -> (r: Result<(), SysErr>)
    ensures
        fd_step(old(files)@, parent_view(parent), action, final(files)@, r),
{
    match action {
        FdAction::Open(f, fd) => {
            files.add_fd(fd, f);
            Ok(())
        },
        FdAction::Close(fd) => {
            files.remove_fd(fd);
            Ok(())
        },
        FdAction::Dup(from, to) => {
            let f = match files.fd(from) {
                Some(f) => f,
                None => return Err(SysErr::NoFile),
            };
            files.add_fd(to, f);
            Ok(())
        },
        FdAction::Clear => {
            files.clear();
            Ok(())
        },
        FdAction::Inherit(from, to) => {
            let p = match parent {
                Some(p) => p,
                None => return Err(SysErr::NoProcess),
            };
            let f = match p.fd(from) {
                Some(f) => f,
                None => return Err(SysErr::NoFile),
            };
            files.add_fd(to, f);
            Ok(())
        },
    }
}

/// Applies `actions` in order to the files of a process being spawned, as
/// `apply_fd_action` does each; the first that fails ends the run with its
/// error (the spawn then fails, and the files are dropped).
pub fn apply_fd_actions<F: Clone>(files: &mut FdTable<F>, parent: Option<&FdTable<F>>, actions: Vec<FdAction<F>>) -> (r: Result<(), SysErr>)
    ensures
        fd_run(old(files)@, parent_view(parent), actions@, final(files)@, r),
{
    let ghost m0 = files@;
    let ghost all = actions@;
    let ghost pv = parent_view(parent);
    let mut rest = actions;
    while rest.len() > 0
        invariant
            pv == parent_view(parent),
            m0 == old(files)@,
            all == actions@,
            forall|fin: Map<u32, F>, r: Result<(), SysErr>|
                #[trigger] fd_run(files@, pv, rest@, fin, r) ==> fd_run(m0, pv, all, fin, r),
        decreases rest.len(),
    {
        let ghost m = files@;
        let ghost before = rest@;
        let a = rest.remove(0);
        let res = apply_fd_action(files, parent, a);
        proof {
            assert(before.drop_first() =~= rest@);
        }
        if res.is_err() {
            proof {
                assert(fd_run(m, pv, before, files@, res));
                assert(fd_run(m0, pv, all, files@, res));
            }
            return res;
        }
        proof {
            let m1 = files@;
            assert forall|fin: Map<u32, F>, r: Result<(), SysErr>|
                #[trigger] fd_run(m1, pv, rest@, fin, r) implies fd_run(m0, pv, all, fin, r) by {
                assert(fd_step(m, pv, before[0], m1, res));
                assert(fd_run(m, pv, before, fin, r));
            }
        }
    }
    proof {
        assert(fd_run(files@, pv, rest@, files@, Ok(())));
        assert(fd_run(m0, pv, all, files@, Ok(())));
    }
    Ok(())
}

/// The four user ranges a spawn is handed (the program's path, and one
/// record each for its arguments, its environment and its descriptor
/// actions) all lie below the higher-half map at `hhdm`; see
/// `valid_user_range`. A spawn fails with `AddrNotValid` unless they do.
pub open spec fn spawn_ranges_ok(
    path: usize,
    path_len: usize,
    arg: usize,
    env: usize,
    actions: usize,
    rec_size: usize,
    action_rec_size: usize,
    hhdm: usize,
) -> bool {
    &&& path != 0 && path < hhdm && path + path_len < hhdm
    &&& arg != 0 && arg < hhdm && arg + rec_size < hhdm
    &&& env != 0 && env < hhdm && env + rec_size < hhdm
    &&& actions != 0 && actions < hhdm && actions + action_rec_size < hhdm
}

/// Whether a spawn's four user ranges are valid; see `spawn_ranges_ok`.
/// `rec_size` is the size of an argument or environment record,
/// `action_rec_size` that of the record of descriptor actions.
pub fn spawn_ranges_valid(
    path: usize,
    path_len: usize,
    arg: usize,
    env: usize,
    actions: usize,
    rec_size: usize,
    action_rec_size: usize,
    hhdm: usize,
) -> (r: bool)
    requires
        path + path_len <= usize::MAX,
        arg + rec_size <= usize::MAX,
        env + rec_size <= usize::MAX,
        actions + action_rec_size <= usize::MAX,
    ensures
        r == spawn_ranges_ok(path, path_len, arg, env, actions, rec_size, action_rec_size, hhdm),
{
    valid_user_range(path, path_len, 1, hhdm) && valid_user_range(arg, 1, rec_size, hhdm) && valid_user_range(
        env,
        1,
        rec_size,
        hhdm,
    ) && valid_user_range(actions, 1, action_rec_size, hhdm)
}

/// Whether every byte of `s` is an ASCII digit.
pub open spec fn all_digits(s: Seq<u8>) -> bool {
    forall|i: int| 0 <= i < s.len() ==> 48 <= #[trigger] s[i] <= 57
}

/// The number the decimal digits `s` spell.
pub open spec fn digits_value(s: Seq<u8>) -> nat
    decreases s.len(),
{
    if s.len() == 0 {
        0
    } else {
        digits_value(s.drop_last()) * 10 + (s.last() - 48) as nat
    }
}

/// The number `s` spells as a descriptor: an optional `+`, then one or more
/// decimal digits, the number fitting in 32 bits; none otherwise.
pub open spec fn parse_fd(s: Seq<u8>) -> Option<u32> {
    let d = if s.len() > 0 && s[0] == 43 {
        s.drop_first()
    } else {
        s
    };
    if d.len() > 0 && all_digits(d) && digits_value(d) <= u32::MAX {
        Some(digits_value(d) as u32)
    } else {
        None
    }
}

/// A longer run of digits spells at least as much.
proof fn lemma_digits_grow(s: Seq<u8>, k: int)
    requires
        all_digits(s),
        0 <= k <= s.len(),
    ensures
        digits_value(s.take(k)) <= digits_value(s),
    decreases s.len() - k,
{
    if k < s.len() {
        let t = s.take(k + 1);
        assert(t.drop_last() =~= s.take(k));
        lemma_digits_grow(s, k + 1);
    } else {
        assert(s.take(k) =~= s);
    }
}

/// The number `s` spells as a descriptor; see `parse_fd`.
pub fn parse_descriptor(s: &[u8]) -> (r: Option<u32>)
    ensures
        r == parse_fd(s@),
{
    let start: usize = if s.len() > 0 && s[0] == 43 { 1 } else { 0 };
    let ghost d = if s@.len() > 0 && s@[0] == 43 { s@.drop_first() } else { s@ };
    proof {
        assert(d =~= s@.skip(start as int));
    }
    if start >= s.len() {
        return None;
    }
    let mut acc: u64 = 0;
    let mut i: usize = start;
    while i < s.len()
        invariant
            start <= i <= s@.len(),
            d == s@.skip(start as int),
            d == (if s@.len() > 0 && s@[0] == 43 { s@.drop_first() } else { s@ }),
            all_digits(d.take(i - start)),
            acc == digits_value(d.take(i - start)),
            acc <= u32::MAX,
        decreases s@.len() - i,
    {
        let c = s[i];
        proof {
            assert(d[i - start] == c);
            assert(d.take(i - start + 1).drop_last() =~= d.take(i - start));
            assert(d.take(i - start + 1).last() == c);
        }
        if c < 48 || c > 57 {
            proof {
                assert(!all_digits(d));
                assert(parse_fd(s@) is None);
            }
            return None;
        }
        let digit = (c - 48) as u64;
        if acc > (4294967295 - digit) / 10 {
            proof {
                assert(all_digits(d.take(i - start + 1))) by {
                    assert forall|j: int| 0 <= j < d.take(i - start + 1).len() implies 48 <= #[trigger] d.take(
                        i - start + 1,
                    )[j] <= 57 by {
                        if j < i - start {
                            assert(d.take(i - start + 1)[j] == d.take(i - start)[j]);
                        }
                    }
                }
                assert(acc * 10 + digit > 4294967295) by (nonlinear_arith)
                    requires
                        acc > (4294967295 - digit) / 10,
                        digit <= 9,
                ;
                assert(digits_value(d.take(i - start + 1)) == digits_value(d.take(i - start)) * 10 + (c - 48) as nat);
                if all_digits(d) {
                    lemma_digits_grow(d, i - start + 1);
                }
                assert(parse_fd(s@) is None);
            }
            return None;
        }
        proof {
            assert(acc * 10 + digit <= 4294967295) by (nonlinear_arith)
                requires
                    acc <= (4294967295 - digit) / 10,
                    digit <= 9,
            ;
            assert forall|j: int| 0 <= j < d.take(i - start + 1).len() implies 48 <= #[trigger] d.take(
                i - start + 1,
            )[j] <= 57 by {
                if j < i - start {
                    assert(d.take(i - start + 1)[j] == d.take(i - start)[j]);
                }
            }
        }
        acc = acc * 10 + digit;
        i = i + 1;
    }
    proof {
        assert(d.take(i - start) =~= d);
    }
    Some(acc as u32)
}

/// The descriptor the built-in read-from program reads: the number its
/// argument spells (see `parse_fd`), or standard input `stdin` without an
/// argument or when the argument spells none.
pub fn read_from_fd(arg: Option<&[u8]>, stdin: u32) -> (r: u32)
    ensures
        r == (match arg {
            None => stdin,
            Some(a) => match parse_fd(a@) {
                Some(n) => n,
                None => stdin,
            },
        }),
{
    match arg {
        None => stdin,
        Some(a) => match parse_descriptor(a) {
            Some(n) => n,
            None => stdin,
        },
    }
}

/// What the read-from program does after one read through its descriptor.
#[derive(Debug, Clone, Copy, PartialEq, Eq, Structural)]
pub enum ReadFromStep {
    /// Keep the bytes read and read again.
    Append(usize),
    /// Wait for the descriptor's condition, then read again.
    Wait,
    /// Stop reading and print what was gathered.
    Stop,
}

/// One step of the read-from program: a failed read ends it; an empty read
/// waits when the file has a condition to wait for; anything else is kept,
/// and the program reads again.
pub fn read_from_step(read: Result<usize, ()>, has_waiter: bool) -> (r: ReadFromStep)
    ensures
        r == (match read {
            Err(()) => ReadFromStep::Stop,
            Ok(n) => if n == 0 && has_waiter {
                ReadFromStep::Wait
            } else {
                ReadFromStep::Append(n)
            },
        }),
{
    match read {
        Err(()) => ReadFromStep::Stop,
        Ok(n) => if n == 0 && has_waiter {
            ReadFromStep::Wait
        } else {
            ReadFromStep::Append(n)
        },
    }
}

/// What the file of a built-in program holds.
pub const BUILTIN_MARKER: [u8; 12] = [116, 105, 110, 121, 95, 98, 117, 105, 108, 116, 105, 110];

/// Whether the first `n` bytes read from a program file mark a built-in
/// program: they are exactly the marker.
pub fn is_builtin(buf: &[u8], n: usize) -> (r: bool)
    requires
        n <= buf@.len(),
    ensures
        r == (buf@.take(n as int) == BUILTIN_MARKER@),
{
    if n != 12 {
        proof {
            assert(buf@.take(n as int).len() != BUILTIN_MARKER@.len());
        }
        return false;
    }
    let marker = BUILTIN_MARKER;
    let mut i: usize = 0;
    while i < 12
        invariant
            n == 12,
            n <= buf@.len(),
            marker@ == BUILTIN_MARKER@,
            i <= 12,
            forall|j: int| 0 <= j < i ==> buf@[j] == marker@[j],
        decreases 12 - i,
    {
        if buf[i] != marker[i] {
            proof {
                assert(buf@.take(n as int)[i as int] != BUILTIN_MARKER@[i as int]);
            }
            return false;
        }
        i = i + 1;
    }
    proof {
        assert(buf@.take(n as int) =~= BUILTIN_MARKER@);
    }
    true
}

} // verus!
