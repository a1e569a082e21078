//! Tasks: the argument words they start with, their states and exit
//! information, and the identifiers of threads, processes and groups.
use vstd::prelude::*;

verus! {

/// Where the address space of a user task hands out memory maps from.
pub const USER_MMAP_START: u64 = 0x9000_000_0000;

/// How many argument words a task starts with.
pub const MAX_ARGS: usize = 6;

/// The privilege a task runs with.
#[derive(Debug, Clone, Copy, PartialEq, Eq, Structural)]
pub enum PrivilegeLevel {
    Kernel,
    User,
    Unset,
}

impl Default for PrivilegeLevel {
    fn default() -> (r: Self)
        ensures
            r == PrivilegeLevel::Unset,
    {
        PrivilegeLevel::Unset
    }
}

/// One argument word handed to a task.
#[derive(Debug, Clone, Copy, PartialEq, Eq, Structural)]
pub struct Arg(usize);

impl View for Arg {
    type V = usize;

    closed spec fn view(&self) -> usize {
        self.0
    }
}

impl Arg {
    pub fn from_usize(v: usize) -> (r: Self)
        ensures
            r@ == v,
    {
        Arg(v)
    }

    /// The word itself.
    pub fn value(&self) -> (r: usize)
        ensures
            r == self@,
    {
        self.0
    }
}

impl Default for Arg {
    /// An unset argument reads 42.
    fn default() -> (r: Self)
        ensures
            r@ == 42,
    {
        Arg(42)
    }
}

/// The argument words of a task.
#[derive(Debug, PartialEq, Eq)]
pub struct Args([Arg; 6]);

impl View for Args {
    type V = Seq<usize>;

    closed spec fn view(&self) -> Seq<usize> {
        self.0@.map_values(|a: Arg| a@)
    }
}

impl Args {
    pub fn new(s: [Arg; 6]) -> (r: Self)
        ensures
            r@ == s@.map_values(|a: Arg| a@),
    {
        Args(s)
    }

    /// The argument at `idx`, for changing.
    pub fn get_mut(&mut self, idx: usize) -> (r: &mut Arg)
        requires
            idx < MAX_ARGS,
        ensures
            (*r)@ == old(self)@[idx as int],
            final(self)@ == old(self)@.update(idx as int, (*final(r))@),
    {
        &mut self.0[idx]
    }

    /// The argument at `idx`.
    pub fn get(&self, idx: usize) -> (r: &Arg)
        requires
            idx < MAX_ARGS,
        ensures
            r@ == self@[idx as int],
    {
        &self.0[idx]
    }
}

impl Default for Args {
    /// Every argument unset.
    fn default() -> (r: Self)
        ensures
            r@ == Seq::new(6, |i: int| 42usize),
    {
        let r = Args([Arg::default(), Arg::default(), Arg::default(), Arg::default(), Arg::default(), Arg::default()]);
        assert(r@ =~= Seq::new(6, |i: int| 42usize));
        r
    }
}

/// What a task starts with besides its entry point: its arguments.
#[derive(Debug)]
pub struct TaskData {
    pub args: Args,
}

impl Default for TaskData {
    fn default() -> (r: Self)
        ensures
            r.args@ == Seq::new(6, |i: int| 42usize),
    {
        TaskData { args: Args::default() }
    }
}

/// A task being built that has no entry point yet.
pub struct Uninit;

/// A task being built with its entry point: possibly an ELF image.
pub struct Init<'data> {
    pub elf_data: Option<&'data [u8]>,
}

impl<'data> Init<'data> {
    pub fn new(bytes: &'data [u8]) -> (r: Self)
        ensures
            r.elf_data == Some(bytes),
    {
        Init { elf_data: Some(bytes) }
    }
}

impl<'data> Default for Init<'data> {
    fn default() -> (r: Self)
        ensures
            r.elf_data is None,
    {
        Init { elf_data: None }
    }
}

/// The state of a task.
#[derive(Debug, Clone, Copy, PartialEq, Eq, Structural)]
pub enum TaskState {
    Running,
    Ready,
    Blocking,
    Sleeping,
    Zombie,
}

/// The number a state is stored as.
pub open spec fn state_code(s: TaskState) -> u8 {
    match s {
        TaskState::Running => 0,
        TaskState::Ready => 1,
        TaskState::Blocking => 2,
        TaskState::Sleeping => 3,
        TaskState::Zombie => 4,
    }
}

impl TaskState {
    /// A new task is ready.
    pub fn new() -> (r: Self)
        ensures
            r == TaskState::Ready,
    {
        TaskState::Ready
    }

    /// The state stored as `value`; only 0 to 4 name a state.
    pub fn from_u8(value: u8) -> (r: Self)
        requires
            value < 5,
        ensures
            state_code(r) == value,
    {
        if value == 0 {
            TaskState::Running
        } else if value == 1 {
            TaskState::Ready
        } else if value == 2 {
            TaskState::Blocking
        } else if value == 3 {
            TaskState::Sleeping
        } else {
            TaskState::Zombie
        }
    }

    /// The number this state is stored as.
    pub fn as_u8(&self) -> (r: u8)
        ensures
            r == state_code(*self),
    {
        match self {
            TaskState::Running => 0,
            TaskState::Ready => 1,
            TaskState::Blocking => 2,
            TaskState::Sleeping => 3,
            TaskState::Zombie => 4,
        }
    }
}

impl Default for TaskState {
    fn default() -> (r: Self)
        ensures
            r == TaskState::Ready,
    {
        TaskState::Ready
    }
}

/// How a task ended.
#[derive(Debug, Clone, Copy, PartialEq, Eq, Structural)]
pub struct ExitInfo {
    pub exit_code: u32,
    pub signal: Option<u8>,
}

/// What a task's state carries besides the state.
#[derive(Debug, Clone, Copy, PartialEq, Eq, Structural)]
pub enum TaskStateData {
    Exit(ExitInfo),
    NoData,
}

impl Default for TaskStateData {
    fn default() -> (r: Self)
        ensures
            r == TaskStateData::NoData,
    {
        TaskStateData::NoData
    }
}

/// The identifier of a thread.
#[derive(Debug, Clone, Copy, PartialEq, Eq, Structural, Hash, PartialOrd, Ord)]
pub struct ThreadID {
    inner: u64,
}

impl View for ThreadID {
    type V = u64;

    closed spec fn view(&self) -> u64 {
        self.inner
    }
}

impl Default for ThreadID {
    fn default() -> (r: Self)
        ensures
            r@ == 0,
    {
        ThreadID { inner: 0 }
    }
}

/// Hands out thread identifiers, counting up from 1 (0 stands for "no
/// thread").
pub struct TidCounter {
    next: u64,
}

impl View for TidCounter {
    type V = u64;

    closed spec fn view(&self) -> u64 {
        self.next
    }
}

impl TidCounter {
    pub fn new() -> (r: Self)
        ensures
            r@ == 1,
    {
        TidCounter { next: 1 }
    }
}

/// The next thread identifier; the counter moves on (wrapping).
pub fn get_tid(ids: &mut TidCounter) -> (r: ThreadID)
    ensures
        r@ == old(ids)@,
        final(ids)@ == vstd::wrapping::u64_specs::wrapping_add(old(ids)@, 1),
{
    let current = ids.next;
    ids.next = ids.next.wrapping_add(1);
    ThreadID { inner: current }
}

/// The counter of a new `TidCounter` after `k` identifiers were handed out.
pub open spec fn counter_after(k: nat) -> u64
    decreases k,
{
    if k == 0 {
        1
    } else {
        vstd::wrapping::u64_specs::wrapping_add(counter_after((k - 1) as nat), 1)
    }
}

/// Identifiers handed out from a new counter are never 0 and never repeat
/// before the counter goes round: the `i`-th one handed out is `i + 1`,
/// below every one handed out after it.
pub proof fn law_tids_fresh(i: nat, j: nat)
    requires
        i < j < u64::MAX,
    ensures
        counter_after(i) == i + 1,
        counter_after(i) != 0,
        counter_after(i) < counter_after(j),
{
    lemma_counter_after(j);
    lemma_counter_after(i);
}

proof fn lemma_counter_after(k: nat)
    requires
        k < u64::MAX,
    ensures
        counter_after(k) == k + 1,
    decreases k,
{
    if k > 0 {
        lemma_counter_after((k - 1) as nat);
    }
}

impl ThreadID {
    /// A fresh identifier from the counter.
    pub fn new(ids: &mut TidCounter) -> (r: Self)
        ensures
            r@ == old(ids)@,
            final(ids)@ == vstd::wrapping::u64_specs::wrapping_add(old(ids)@, 1),
    {
        get_tid(ids)
    }

    pub fn get_inner(&self) -> (r: u64)
        ensures
            r == self@,
    {
        self.inner
    }
}

impl From<u64> for ThreadID {
    fn from(value: u64) -> (r: Self) {
        ThreadID { inner: value }
    }
}

/// Thread identifiers are equal exactly when their numbers are.
pub broadcast proof fn lemma_thread_id_eq(a: ThreadID, b: ThreadID)
    ensures
        (#[trigger] a@ == #[trigger] b@) ==> a == b,
{
}

/// Converting a number gives the thread identifier with that number.
pub proof fn lemma_thread_id_from(v: u64)
    ensures
        <ThreadID as vstd::std_specs::convert::FromSpec<u64>>::from_spec(v)@ == v,
{
}

impl vstd::std_specs::convert::FromSpecImpl<u64> for ThreadID {
    open spec fn obeys_from_spec() -> bool {
        true
    }

    closed spec fn from_spec(v: u64) -> Self {
        ThreadID { inner: v }
    }
}

/// The identifier of a process.
#[derive(Debug, Clone, Copy, PartialEq, Eq, Structural, Hash, PartialOrd, Ord)]
pub struct ProcessID(pub u64);

impl From<u64> for ProcessID {
    fn from(value: u64) -> (r: Self) {
        ProcessID(value)
    }
}

impl vstd::std_specs::convert::FromSpecImpl<u64> for ProcessID {
    open spec fn obeys_from_spec() -> bool {
        true
    }

    open spec fn from_spec(v: u64) -> Self {
        ProcessID(v)
    }
}

impl Default for ProcessID {
    fn default() -> (r: Self)
        ensures
            r.0 == 0,
    {
        ProcessID(0)
    }
}

/// The identifier of a process group.
#[derive(Debug, Clone, Copy, PartialEq, Eq, Structural, Hash, PartialOrd, Ord)]
pub struct ProcessGroupID(pub u64);

impl From<u64> for ProcessGroupID {
    fn from(value: u64) -> (r: Self) {
        ProcessGroupID(value)
    }
}

impl vstd::std_specs::convert::FromSpecImpl<u64> for ProcessGroupID {
    open spec fn obeys_from_spec() -> bool {
        true
    }

    open spec fn from_spec(v: u64) -> Self {
        ProcessGroupID(v)
    }
}

impl Default for ProcessGroupID {
    fn default() -> (r: Self)
        ensures
            r.0 == 0,
    {
        ProcessGroupID(0)
    }
}

/// Why creating or running a task failed.
#[derive(Debug)]
pub enum ThreadingError {
    StackNotBuilt,
    StackNotFreed,
    PageDirNotBuilt,
    Unknown(String),
}

/// The message of a threading error: a fixed sentence for each kind, and
/// for an unspecified error a heading line followed by its own text.
pub open spec fn threading_message(e: ThreadingError) -> Seq<char> {
    match e {
        ThreadingError::StackNotBuilt => "the stack for a task could not be built"@,
        ThreadingError::StackNotFreed => "the stack of a task could not be deallocated"@,
        ThreadingError::PageDirNotBuilt => "the pagedir of a task could not be built"@,
        ThreadingError::Unknown(s) => "unspecified threading error:\n"@ + s@,
    }
}

impl ThreadingError {
    /// The error's message; see `threading_message`.
    pub fn message(&self) -> (r: String)
        ensures
            r@ == threading_message(*self),
    {
        match self {
            ThreadingError::StackNotBuilt => String::from_str("the stack for a task could not be built"),
            ThreadingError::StackNotFreed => String::from_str("the stack of a task could not be deallocated"),
            ThreadingError::PageDirNotBuilt => String::from_str("the pagedir of a task could not be built"),
            ThreadingError::Unknown(s) => {
                let mut m = String::from_str("unspecified threading error:\n");
                m.append(s.as_str());
                m
            },
        }
    }
}

} // verus!
