//! The task table and the round-robin scheduler: which threads exist and
//! in what state, how states change when threads are killed, blocked and
//! woken, and which ready thread runs next.
use std::collections::VecDeque;
use vstd::prelude::*;

use crate::task::{ExitInfo, TaskState, TaskStateData, ThreadID, lemma_thread_id_eq};

verus! {

broadcast use lemma_thread_id_eq;

/// A thread in the table, as plain values.
pub struct TaskView {
    pub tid: u64,
    pub state: TaskState,
    pub data: TaskStateData,
}

/// The table, as plain values: the running thread, the threads in table
/// order, and the threads queued for removal.
pub struct ManagerView {
    pub current: u64,
    pub tasks: Seq<TaskView>,
    pub zombies: Seq<u64>,
}

/// Position of thread `tid` in the table, or -1.
pub open spec fn task_index(tasks: Seq<TaskView>, tid: u64) -> int
    decreases tasks.len(),
{
    if tasks.len() == 0 {
        -1
    } else if tasks.last().tid == tid {
        tasks.len() - 1
    } else {
        task_index(tasks.drop_last(), tid)
    }
}

/// The state of thread `tid`, if it is in the table.
pub open spec fn state_of(tasks: Seq<TaskView>, tid: u64) -> Option<TaskState> {
    let i = task_index(tasks, tid);
    if i < 0 {
        None
    } else {
        Some(tasks[i].state)
    }
}

/// No thread is in the table twice.
pub open spec fn tids_unique(tasks: Seq<TaskView>) -> bool {
    forall|i: int, j: int| 0 <= i < tasks.len() && 0 <= j < tasks.len() && i != j ==> tasks[i].tid != tasks[j].tid
}

/// The table with thread `i` given a new state and state data.
pub open spec fn with_state(m: ManagerView, i: int, state: TaskState, data: TaskStateData) -> ManagerView {
    ManagerView {
        current: m.current,
        tasks: m.tasks.update(i, TaskView { tid: m.tasks[i].tid, state, data }),
        zombies: m.zombies,
    }
}

/// Killing a thread: it becomes a zombie that exited with the signal as its
/// code, and is queued for removal. An unknown thread cannot be killed.
pub open spec fn kill_spec(m: ManagerView, tid: u64, signal: i32) -> (ManagerView, Option<()>) {
    let i = task_index(m.tasks, tid);
    if i < 0 {
        (m, None)
    } else {
        let k = with_state(
            m,
            i,
            TaskState::Zombie,
            TaskStateData::Exit(ExitInfo { exit_code: signal as u32, signal: None }),
        );
        (ManagerView { current: k.current, tasks: k.tasks, zombies: k.zombies.push(tid) }, Some(()))
    }
}

/// Blocking a thread: a thread that is neither a zombie nor sleeping
/// becomes blocking; otherwise nothing changes and the call fails.
pub open spec fn block_spec(m: ManagerView, tid: u64) -> (ManagerView, Option<()>) {
    let i = task_index(m.tasks, tid);
    if i < 0 {
        (m, None)
    } else if m.tasks[i].state != TaskState::Zombie && m.tasks[i].state != TaskState::Sleeping {
        (with_state(m, i, TaskState::Blocking, m.tasks[i].data), Some(()))
    } else {
        (m, None)
    }
}

/// Waking a thread: a blocking or sleeping thread becomes ready; a known
/// thread in another state is left as it is.
pub open spec fn wake_spec(m: ManagerView, tid: u64) -> (ManagerView, Option<()>) {
    let i = task_index(m.tasks, tid);
    if i < 0 {
        (m, None)
    } else if m.tasks[i].state == TaskState::Blocking || m.tasks[i].state == TaskState::Sleeping {
        (with_state(m, i, TaskState::Ready, m.tasks[i].data), Some(()))
    } else {
        (m, Some(()))
    }
}

/// Whether cleaning up removes a thread: it is a zombie, or queued for removal.
pub open spec fn removed_by_cleanup(m: ManagerView, t: TaskView) -> bool {
    t.state == TaskState::Zombie || m.zombies.contains(t.tid)
}

/// The threads that remain after cleaning up, in table order.
pub open spec fn kept_after_cleanup(m: ManagerView, tasks: Seq<TaskView>) -> Seq<TaskView>
    decreases tasks.len(),
{
    if tasks.len() == 0 {
        Seq::empty()
    } else {
        let r = kept_after_cleanup(m, tasks.drop_last());
        if removed_by_cleanup(m, tasks.last()) {
            r
        } else {
            r.push(tasks.last())
        }
    }
}

/// A thread the scheduler may run.
pub open spec fn runnable(s: TaskState) -> bool {
    s == TaskState::Ready || s == TaskState::Running
}

/// The runnable threads, in table order.
pub open spec fn runnable_tids(tasks: Seq<TaskView>) -> Seq<u64>
    decreases tasks.len(),
{
    if tasks.len() == 0 {
        Seq::empty()
    } else {
        let r = runnable_tids(tasks.drop_last());
        if runnable(tasks.last().state) {
            r.push(tasks.last().tid)
        } else {
            r
        }
    }
}

/// Position of the first queued thread that is in the table and ready, or -1.
pub open spec fn first_ready(q: Seq<u64>, tasks: Seq<TaskView>) -> int
    decreases q.len(),
{
    if q.len() == 0 {
        -1
    } else if state_of(tasks, q[0]) == Some(TaskState::Ready) {
        0
    } else {
        let r = first_ready(q.drop_first(), tasks);
        if r < 0 {
            -1
        } else {
            r + 1
        }
    }
}

/// Switching: queued threads that are gone or not ready are dropped from
/// the front of the queue; the first ready one becomes the running thread
/// and goes to the back of the queue. With none, the queue ends empty.
pub open spec fn switch_spec(q: Seq<u64>, m: ManagerView) -> (Seq<u64>, ManagerView, Option<u64>) {
    let k = first_ready(q, m.tasks);
    if k < 0 {
        (Seq::empty(), m, None)
    } else {
        (
            q.skip(k + 1).push(q[k]),
            ManagerView { current: q[k], tasks: m.tasks, zombies: m.zombies },
            Some(q[k]),
        )
    }
}

proof fn lemma_task_index(tasks: Seq<TaskView>, tid: u64)
    ensures
        -1 <= task_index(tasks, tid) < tasks.len(),
        task_index(tasks, tid) >= 0 ==> tasks[task_index(tasks, tid)].tid == tid,
        task_index(tasks, tid) < 0 ==> forall|j: int| 0 <= j < tasks.len() ==> #[trigger] tasks[j].tid != tid,
    decreases tasks.len(),
{
    if tasks.len() > 0 && tasks.last().tid != tid {
        lemma_task_index(tasks.drop_last(), tid);
        if task_index(tasks, tid) < 0 {
            assert forall|j: int| 0 <= j < tasks.len() implies #[trigger] tasks[j].tid != tid by {
                if j < tasks.len() - 1 {
                    assert(tasks.drop_last()[j] == tasks[j]);
                }
            }
        }
    }
}

proof fn lemma_task_index_unique(tasks: Seq<TaskView>, tid: u64, k: int)
    requires
        tids_unique(tasks),
        0 <= k < tasks.len(),
        tasks[k].tid == tid,
    ensures
        task_index(tasks, tid) == k,
{
    lemma_task_index(tasks, tid);
}

/// Where each thread of the table sits, by its number, kept in a hashbrown
/// `HashMap`.
#[verifier::external_body]
pub struct TidIndex {
    map: hashbrown::HashMap<u64, usize>,
}

/// What the index holds: the position filed under each thread number.
pub uninterp spec fn tid_positions(t: TidIndex) -> Map<u64, usize>;

/// `hashbrown::HashMap::new`: an empty index.
#[verifier::external_body]
fn tids_new() -> (r: TidIndex)
    ensures
        tid_positions(r).dom().is_empty(),
{
    TidIndex { map: hashbrown::HashMap::new() }
}

/// `hashbrown::HashMap::insert`: `tid` now maps to `pos`; the position it
/// mapped to before, if any, is returned.
#[verifier::external_body]
fn tids_insert(t: &mut TidIndex, tid: u64, pos: usize) -> (r: Option<usize>)
    ensures
        tid_positions(*final(t)) == tid_positions(*old(t)).insert(tid, pos),
        r == (if tid_positions(*old(t)).contains_key(tid) {
            Some(tid_positions(*old(t))[tid])
        } else {
            None
        }),
{
    t.map.insert(tid, pos)
}

/// `hashbrown::HashMap::get`: the position `tid` maps to, if any.
#[verifier::external_body]
fn tids_get(t: &TidIndex, tid: u64) -> (r: Option<usize>)
    ensures
        r == (if tid_positions(*t).contains_key(tid) {
            Some(tid_positions(*t)[tid])
        } else {
            None
        }),
{
    t.map.get(&tid).copied()
}

/// The index files each thread of `tasks` under its number, at its
/// position, and nothing else.
pub open spec fn positions_match(ix: Map<u64, usize>, tasks: Seq<TaskView>) -> bool {
    &&& forall|i: int| 0 <= i < tasks.len() ==> ix.contains_key(#[trigger] tasks[i].tid) && ix[tasks[i].tid] == i
    &&& forall|k: u64| #[trigger] ix.contains_key(k) ==> ix[k] < tasks.len() && tasks[ix[k] as int].tid == k
}

/// Changing only states, not the threads' numbers, keeps the index right.
proof fn lemma_positions_same_tids(ix: Map<u64, usize>, s: Seq<TaskView>, t: Seq<TaskView>)
    requires
        positions_match(ix, s),
        t.len() == s.len(),
        forall|j: int| 0 <= j < s.len() ==> #[trigger] t[j].tid == s[j].tid,
    ensures
        positions_match(ix, t),
{
    assert forall|i: int| 0 <= i < t.len() implies ix.contains_key(#[trigger] t[i].tid) && ix[t[i].tid] == i by {
        assert(t[i].tid == s[i].tid);
    }
    assert forall|k: u64| #[trigger] ix.contains_key(k) implies ix[k] < t.len() && t[ix[k] as int].tid == k by {
        assert(t[ix[k] as int].tid == s[ix[k] as int].tid);
    }
}

/// Filing one more thread, whose number is new, at the end.
proof fn lemma_positions_push(ix: Map<u64, usize>, s: Seq<TaskView>, t: TaskView)
    requires
        positions_match(ix, s),
        forall|j: int| 0 <= j < s.len() ==> #[trigger] s[j].tid != t.tid,
        s.len() <= usize::MAX,
    ensures
        positions_match(ix.insert(t.tid, s.len() as usize), s.push(t)),
{
    let ix2 = ix.insert(t.tid, s.len() as usize);
    let s2 = s.push(t);
    assert forall|i: int| 0 <= i < s2.len() implies ix2.contains_key(#[trigger] s2[i].tid) && ix2[s2[i].tid] == i by {
        if i < s.len() {
            assert(s2[i] == s[i]);
        }
    }
    assert forall|k: u64| #[trigger] ix2.contains_key(k) implies ix2[k] < s2.len() && s2[ix2[k] as int].tid == k by {
        if k != t.tid {
            assert(s2[ix[k] as int] == s[ix[k] as int]);
        }
    }
}

/// The threads, their states, the running thread, and where each thread
/// sits in the table.
pub struct TaskManager {
    current: ThreadID,
    tasks: Vec<(ThreadID, TaskState, TaskStateData)>,
    zombies: VecDeque<ThreadID>,
    index: TidIndex,
}

impl TaskManager {
    pub closed spec fn view(&self) -> ManagerView {
        ManagerView {
            current: self.current@,
            tasks: self.tasks@.map_values(|t: (ThreadID, TaskState, TaskStateData)| TaskView { tid: t.0@, state: t.1, data: t.2 }),
            zombies: self.zombies@.map_values(|t: ThreadID| t@),
        }
    }

    pub open spec fn wf(&self) -> bool {
        tids_unique(self.view().tasks) && self.index_ok()
    }

    /// The index says where each thread sits.
    pub closed spec fn index_ok(&self) -> bool {
        positions_match(tid_positions(self.index), self.view().tasks)
    }

    /// An empty table; no thread runs.
    pub fn new() -> (r: Self)
        ensures
            r.wf(),
            r.view().current == 0,
            r.view().tasks == Seq::<TaskView>::empty(),
            r.view().zombies == Seq::<u64>::empty(),
    {
        let r = TaskManager { current: ThreadID::default(), tasks: Vec::new(), zombies: VecDeque::new(), index: tids_new() };
        assert(r.view().tasks =~= Seq::<TaskView>::empty());
        assert(r.view().zombies =~= Seq::<u64>::empty());
        r
    }

    /// The running thread.
    pub fn current_tid(&self) -> (r: ThreadID)
        ensures
            r@ == self.view().current,
    {
        self.current
    }

    /// Makes `task` the running thread.
    pub fn update_current(&mut self, task: ThreadID)
        ensures
            final(self).view() == (ManagerView { current: task@, tasks: old(self).view().tasks, zombies: old(self).view().zombies }),
            final(self).wf() == old(self).wf(),
    {
        self.current = task;
    }

    /// Position of thread `tid` in the table.
    fn find(&self, tid: ThreadID) -> (r: Option<usize>)
        requires
            self.wf(),
        ensures
            match r {
                Some(i) => task_index(self.view().tasks, tid@) == i,
                None => task_index(self.view().tasks, tid@) < 0,
            },
    {
        let ghost t = self.view().tasks;
        let ghost ix = tid_positions(self.index);
        proof {
            lemma_task_index(t, tid@);
        }
        match tids_get(&self.index, tid.get_inner()) {
            None => {
                proof {
                    if task_index(t, tid@) >= 0 {
                        assert(ix.contains_key(t[task_index(t, tid@)].tid));
                    }
                }
                None
            },
            Some(i) => {
                proof {
                    assert(ix.contains_key(tid@));
                    lemma_task_index_unique(t, tid@, i as int);
                }
                Some(i)
            },
        }
    }

    /// The state of thread `tid`, if it is in the table.
    pub fn thread_state(&self, tid: ThreadID) -> (r: Option<TaskState>)
        requires
            self.wf(),
        ensures
            r == state_of(self.view().tasks, tid@),
    {
        match self.find(tid) {
            None => None,
            Some(i) => {
                proof {
                    lemma_task_index(self.view().tasks, tid@);
                }
                Some(self.tasks[i].1)
            },
        }
    }

    /// Puts thread `tid` in the table with `state`; a thread already there is
    /// replaced, and its old state handed back.
    pub fn add(&mut self, tid: ThreadID, state: TaskState) -> (r: Option<TaskState>)
        requires
            old(self).wf(),
        ensures
            final(self).wf(),
            r == state_of(old(self).view().tasks, tid@),
            final(self).view().current == old(self).view().current,
            final(self).view().zombies == old(self).view().zombies,
            final(self).view().tasks == (match r {
                Some(_) => old(self).view().tasks.update(
                    task_index(old(self).view().tasks, tid@),
                    TaskView { tid: tid@, state, data: TaskStateData::NoData },
                ),
                None => old(self).view().tasks.push(TaskView { tid: tid@, state, data: TaskStateData::NoData }),
            }),
    {
        let ghost before = self.view();
        proof {
            lemma_task_index(before.tasks, tid@);
        }
        match self.find(tid) {
            Some(i) => {
                let old_state = self.tasks[i].1;
                self.tasks.set(i, (tid, state, TaskStateData::NoData));
                proof {
                    let t = before.tasks.update(i as int, TaskView { tid: tid@, state, data: TaskStateData::NoData });
                    assert(self.view().tasks =~= t);
                    assert(self.view().zombies =~= before.zombies);
                    lemma_positions_same_tids(tid_positions(self.index), before.tasks, t);
                }
                Some(old_state)
            },
            None => {
                let at = self.tasks.len();
                self.tasks.push((tid, state, TaskStateData::NoData));
                tids_insert(&mut self.index, tid.get_inner(), at);
                proof {
                    let t = before.tasks.push(TaskView { tid: tid@, state, data: TaskStateData::NoData });
                    assert(self.view().tasks =~= t);
                    assert(self.view().zombies =~= before.zombies);
                    lemma_positions_push(
                        tid_positions(old(self).index),
                        before.tasks,
                        TaskView { tid: tid@, state, data: TaskStateData::NoData },
                    );
                }
                None
            },
        }
    }

    /// Takes note of thread `tid` now in `state`: a zombie is queued for
    /// removal; any other state is put in the table as `add` does.
    pub fn update(&mut self, tid: ThreadID, state: TaskState)
        requires
            old(self).wf(),
        ensures
            final(self).wf(),
            state == TaskState::Zombie ==> final(self).view() == (ManagerView {
                current: old(self).view().current,
                tasks: old(self).view().tasks,
                zombies: old(self).view().zombies.push(tid@),
            }),
            state != TaskState::Zombie ==> final(self).view() == (ManagerView {
                current: old(self).view().current,
                tasks: if task_index(old(self).view().tasks, tid@) >= 0 {
                    old(self).view().tasks.update(
                        task_index(old(self).view().tasks, tid@),
                        TaskView { tid: tid@, state, data: TaskStateData::NoData },
                    )
                } else {
                    old(self).view().tasks.push(TaskView { tid: tid@, state, data: TaskStateData::NoData })
                },
                zombies: old(self).view().zombies,
            }),
    {
        if state == TaskState::Zombie {
            let ghost before = self.view();
            self.zombies.push_back(tid);
            proof {
                assert(self.view().zombies =~= before.zombies.push(tid@));
                assert(self.view().tasks =~= before.tasks);
            }
        } else {
            proof {
                lemma_task_index(self.view().tasks, tid@);
            }
            self.add(tid, state);
        }
    }

    /// Gives the thread at `i` a new state and state data.
    fn set_state(&mut self, i: usize, state: TaskState, data: TaskStateData)
        requires
            old(self).wf(),
            i < old(self).view().tasks.len(),
        ensures
            final(self).wf(),
            final(self).view() == with_state(old(self).view(), i as int, state, data),
    {
        let ghost before = self.view();
        let tid = self.tasks[i].0;
        self.tasks.set(i, (tid, state, data));
        proof {
            let w = with_state(before, i as int, state, data);
            assert(self.view().tasks =~= w.tasks);
            assert(self.view().zombies =~= w.zombies);
        }
    }

    /// Kills thread `id`: it becomes a zombie that exited with `signal` as
    /// its code, and is queued for removal.
    pub fn kill(&mut self, id: ThreadID, signal: i32) -> (r: Option<()>)
        requires
            old(self).wf(),
        ensures
            final(self).wf(),
            (final(self).view(), r) == kill_spec(old(self).view(), id@, signal),
    {
        let ghost before = self.view();
        let i = self.find(id)?;
        proof {
            lemma_task_index(before.tasks, id@);
        }
        self.set_state(i, TaskState::Zombie, TaskStateData::Exit(ExitInfo { exit_code: signal as u32, signal: None }));
        let ghost mid = self.view();
        self.zombies.push_back(id);
        proof {
            assert(self.view().zombies =~= mid.zombies.push(id@));
            assert(self.view().tasks =~= mid.tasks);
        }
        Some(())
    }

    /// Blocks thread `id`, unless it is a zombie or sleeping.
    pub fn block(&mut self, id: ThreadID) -> (r: Option<()>)
        requires
            old(self).wf(),
        ensures
            final(self).wf(),
            (final(self).view(), r) == block_spec(old(self).view(), id@),
    {
        let i = self.find(id)?;
        proof {
            lemma_task_index(self.view().tasks, id@);
            assert(self.view().tasks[i as int].state == self.tasks@[i as int].1);
            assert(self.view().tasks[i as int].data == self.tasks@[i as int].2);
        }
        let state = self.tasks[i].1;
        if state != TaskState::Zombie && state != TaskState::Sleeping {
            let data = self.tasks[i].2;
            self.set_state(i, TaskState::Blocking, data);
            Some(())
        } else {
            None
        }
    }

    /// Wakes thread `id`: a blocking or sleeping thread becomes ready.
    pub fn wake(&mut self, id: ThreadID) -> (r: Option<()>)
        requires
            old(self).wf(),
        ensures
            final(self).wf(),
            (final(self).view(), r) == wake_spec(old(self).view(), id@),
    {
        let i = self.find(id)?;
        proof {
            lemma_task_index(self.view().tasks, id@);
            assert(self.view().tasks[i as int].state == self.tasks@[i as int].1);
            assert(self.view().tasks[i as int].data == self.tasks@[i as int].2);
        }
        let state = self.tasks[i].1;
        if state == TaskState::Blocking || state == TaskState::Sleeping {
            let data = self.tasks[i].2;
            self.set_state(i, TaskState::Ready, data);
        }
        Some(())
    }

    /// Whether `tid` is queued for removal.
    fn is_queued(&self, tid: ThreadID) -> (r: bool)
        ensures
            r == self.view().zombies.contains(tid@),
    {
        let ghost z = self.view().zombies;
        let n = self.zombies.len();
        let mut i: usize = 0;
        while i < n
            invariant
                z == self.view().zombies,
                n == z.len(),
                i <= n,
                forall|j: int| 0 <= j < i ==> z[j] != tid@,
            decreases n - i,
        {
            proof {
                assert(z[i as int] == self.zombies@[i as int]@);
            }
            if self.zombies[i] == tid {
                return true;
            }
            i = i + 1;
        }
        false
    }

    /// Removes the zombies, and the threads queued for removal, from the
    /// table; the queue ends empty.
    pub fn cleanup(&mut self)
        requires
            old(self).wf(),
        ensures
            final(self).wf(),
            final(self).view() == (ManagerView {
                current: old(self).view().current,
                tasks: kept_after_cleanup(old(self).view(), old(self).view().tasks),
                zombies: Seq::empty(),
            }),
    {
        let ghost m = self.view();
        let mut kept: Vec<(ThreadID, TaskState, TaskStateData)> = Vec::new();
        let n = self.tasks.len();
        let mut i: usize = 0;
        while i < n
            invariant
                m == self.view(),
                n == m.tasks.len(),
                i <= n,
                kept@.map_values(|t: (ThreadID, TaskState, TaskStateData)| TaskView { tid: t.0@, state: t.1, data: t.2 })
                    == kept_after_cleanup(m, m.tasks.take(i as int)),
            decreases n - i,
        {
            let (tid, state, data) = self.tasks[i];
            proof {
                assert(m.tasks.take(i + 1).drop_last() =~= m.tasks.take(i as int));
                assert(m.tasks.take(i + 1).last() == m.tasks[i as int]);
                assert(m.tasks[i as int] == TaskView { tid: tid@, state, data });
            }
            let gone = state == TaskState::Zombie || self.is_queued(tid);
            if !gone {
                kept.push((tid, state, data));
            }
            proof {
                assert(kept@.map_values(|t: (ThreadID, TaskState, TaskStateData)| TaskView { tid: t.0@, state: t.1, data: t.2 })
                    =~= kept_after_cleanup(m, m.tasks.take(i + 1)));
            }
            i = i + 1;
        }
        proof {
            assert(m.tasks.take(n as int) =~= m.tasks);
            lemma_kept_subseq(m, m.tasks);
        }
        let mut index = tids_new();
        let mut j: usize = 0;
        let ghost kv = kept@.map_values(|t: (ThreadID, TaskState, TaskStateData)| TaskView { tid: t.0@, state: t.1, data: t.2 });
        proof {
            assert(kv.take(0) =~= Seq::<TaskView>::empty());
        }
        while j < kept.len()
            invariant
                kv == kept@.map_values(|t: (ThreadID, TaskState, TaskStateData)| TaskView { tid: t.0@, state: t.1, data: t.2 }),
                tids_unique(kv),
                j <= kv.len(),
                positions_match(tid_positions(index), kv.take(j as int)),
            decreases kv.len() - j,
        {
            let tid = kept[j].0.get_inner();
            proof {
                assert(kv[j as int].tid == tid);
                assert(kv.take(j + 1) =~= kv.take(j as int).push(kv[j as int]));
                assert forall|a: int| 0 <= a < kv.take(j as int).len() implies #[trigger] kv.take(j as int)[a].tid != kv[j as int].tid by {
                    assert(kv.take(j as int)[a] == kv[a]);
                }
                lemma_positions_push(tid_positions(index), kv.take(j as int), kv[j as int]);
            }
            tids_insert(&mut index, tid, j);
            j = j + 1;
        }
        proof {
            assert(kv.take(kv.len() as int) =~= kv);
        }
        self.tasks = kept;
        self.index = index;
        self.zombies = VecDeque::new();
        proof {
            assert(self.view().zombies =~= Seq::<u64>::empty());
        }
    }
}

/// What cleaning up keeps is taken, in order, from the table: unique
/// threads stay unique.
proof fn lemma_kept_subseq(m: ManagerView, tasks: Seq<TaskView>)
    requires
        tids_unique(tasks),
    ensures
        tids_unique(kept_after_cleanup(m, tasks)),
        forall|j: int| 0 <= j < kept_after_cleanup(m, tasks).len() ==> exists|k: int|
            0 <= k < tasks.len() && #[trigger] kept_after_cleanup(m, tasks)[j] == tasks[k],
    decreases tasks.len(),
{
    if tasks.len() > 0 {
        let d = tasks.drop_last();
        assert(tids_unique(d)) by {
            assert forall|a: int, b: int| 0 <= a < d.len() && 0 <= b < d.len() && a != b implies d[a].tid != d[b].tid by {
                assert(d[a] == tasks[a] && d[b] == tasks[b]);
            }
        }
        lemma_kept_subseq(m, d);
        let r = kept_after_cleanup(m, d);
        let k = kept_after_cleanup(m, tasks);
        assert forall|j: int| 0 <= j < k.len() implies exists|w: int| 0 <= w < tasks.len() && #[trigger] k[j] == tasks[w] by {
            if j < r.len() {
                let w = choose|w: int| 0 <= w < d.len() && #[trigger] r[j] == d[w];
                assert(k[j] == tasks[w]);
            } else {
                assert(k[j] == tasks[tasks.len() - 1]);
            }
        }
        if !removed_by_cleanup(m, tasks.last()) {
            assert forall|a: int, b: int| 0 <= a < k.len() && 0 <= b < k.len() && a != b implies k[a].tid != k[b].tid by {
                if a < r.len() && b < r.len() {
                } else if a < r.len() {
                    let w = choose|w: int| 0 <= w < d.len() && #[trigger] r[a] == d[w];
                    assert(d[w] == tasks[w]);
                } else if b < r.len() {
                    let w = choose|w: int| 0 <= w < d.len() && #[trigger] r[b] == d[w];
                    assert(d[w] == tasks[w]);
                }
            }
        }
    }
}

/// A scheduler: it keeps a queue of threads and picks the next to run.
pub trait Scheduler: Sized {
    fn new() -> Self;

    /// Rebuilds the queue from the table.
    fn reschedule(&mut self, tasks: &TaskManager);

    /// Picks the next thread to run and makes it the running thread.
    fn switch(&mut self, tasks: &mut TaskManager) -> (r: Option<ThreadID>)
        requires
            old(tasks).wf(),
        ensures
            final(tasks).wf(),
    ;

    /// Queues a thread.
    fn add_task(&mut self, id: ThreadID);
}

/// Round robin over a queue that is only rebuilt when asked.
pub struct LazyRoundRobin {
    queue: VecDeque<ThreadID>,
}

impl LazyRoundRobin {
    pub closed spec fn view(&self) -> Seq<u64> {
        self.queue@.map_values(|t: ThreadID| t@)
    }
}

impl Scheduler for LazyRoundRobin {
    fn new() -> (r: Self)
        ensures
            r.view() == Seq::<u64>::empty(),
    {
        let r = LazyRoundRobin { queue: VecDeque::new() };
        assert(r.view() =~= Seq::<u64>::empty());
        r
    }

    fn reschedule(&mut self, tasks: &TaskManager)
        ensures
            final(self).view() == runnable_tids(tasks.view().tasks),
    {
        self.queue.clear();
        let ghost t = tasks.view().tasks;
        let n = tasks.tasks.len();
        let mut i: usize = 0;
        proof {
            assert(t.take(0) =~= Seq::<TaskView>::empty());
            assert(self.view() =~= Seq::<u64>::empty());
        }
        while i < n
            invariant
                t == tasks.view().tasks,
                n == t.len(),
                i <= n,
                self.view() == runnable_tids(t.take(i as int)),
            decreases n - i,
        {
            let (tid, state, _) = tasks.tasks[i];
            proof {
                assert(t.take(i + 1).drop_last() =~= t.take(i as int));
                assert(t.take(i + 1).last() == t[i as int]);
                assert(t[i as int].tid == tid@ && t[i as int].state == state);
            }
            if state == TaskState::Ready || state == TaskState::Running {
                self.queue.push_back(tid);
            }
            proof {
                assert(self.view() =~= runnable_tids(t.take(i + 1)));
            }
            i = i + 1;
        }
        proof {
            assert(t.take(n as int) =~= t);
        }
    }

    fn switch(&mut self, tasks: &mut TaskManager) -> (r: Option<ThreadID>)
        ensures
            ({
                let (q, m, s) = switch_spec(old(self).view(), old(tasks).view());
                &&& final(self).view() == q
                &&& final(tasks).view() == m
                &&& match r {
                    Some(t) => s == Some(t@),
                    None => s is None,
                }
            }),
    {
        let ghost q0 = self.view();
        let ghost m0 = tasks.view();
        let ghost mut popped: int = 0;
        loop
            invariant
                q0 == old(self).view(),
                m0 == old(tasks).view(),
                tasks.view() == m0,
                tasks.wf(),
                0 <= popped <= q0.len(),
                self.view() == q0.skip(popped),
                first_ready(q0, m0.tasks) == (if first_ready(q0.skip(popped), m0.tasks) < 0 {
                    -1
                } else {
                    popped + first_ready(q0.skip(popped), m0.tasks)
                }),
            decreases q0.len() - popped,
        {
            let ghost before = self.view();
            match self.queue.pop_front() {
                None => {
                    proof {
                        assert(before.len() == 0);
                        assert(self.view() =~= Seq::<u64>::empty());
                    }
                    return None;
                },
                Some(id) => {
                    proof {
                        assert(before[0] == id@);
                        assert(self.view() =~= before.drop_first());
                        assert(q0.skip(popped).drop_first() =~= q0.skip(popped + 1));
                    }
                    let st = tasks.thread_state(id);
                    if st != Some(TaskState::Ready) {
                        proof {
                            popped = popped + 1;
                        }
                        continue;
                    }
                    tasks.update_current(id);
                    self.queue.push_back(id);
                    proof {
                        let k = first_ready(q0, m0.tasks);
                        assert(first_ready(before, m0.tasks) == 0);
                        assert(k == popped);
                        assert(q0[k] == before[0]);
                        assert(self.view() =~= q0.skip(k + 1).push(q0[k]));
                    }
                    return Some(id);
                },
            }
        }
    }

    fn add_task(&mut self, id: ThreadID)
        ensures
            final(self).view() == old(self).view().push(id@),
    {
        self.queue.push_back(id);
        assert(self.view() =~= old(self).view().push(id@));
    }
}

/// A thread that was blocked, once woken, is ready.
pub proof fn law_block_then_wake(m: ManagerView, tid: u64)
    requires
        tids_unique(m.tasks),
        block_spec(m, tid).1 is Some,
    ensures
        state_of(wake_spec(block_spec(m, tid).0, tid).0.tasks, tid) == Some(TaskState::Ready),
{
    let i = task_index(m.tasks, tid);
    lemma_task_index(m.tasks, tid);
    let b = block_spec(m, tid).0;
    assert(b.tasks[i].tid == tid);
    assert(tids_unique(b.tasks)) by {
        assert forall|x: int, y: int| 0 <= x < b.tasks.len() && 0 <= y < b.tasks.len() && x != y implies b.tasks[x].tid != b.tasks[y].tid by {
            assert(b.tasks[x].tid == m.tasks[x].tid && b.tasks[y].tid == m.tasks[y].tid);
        }
    }
    lemma_task_index_unique(b.tasks, tid, i);
    let w = wake_spec(b, tid).0;
    assert(w.tasks[i].tid == tid);
    assert(tids_unique(w.tasks)) by {
        assert forall|x: int, y: int| 0 <= x < w.tasks.len() && 0 <= y < w.tasks.len() && x != y implies w.tasks[x].tid != w.tasks[y].tid by {
            assert(w.tasks[x].tid == m.tasks[x].tid && w.tasks[y].tid == m.tasks[y].tid);
        }
    }
    lemma_task_index_unique(w.tasks, tid, i);
}

/// A killed thread is a zombie for good: blocking it fails, and waking it
/// leaves it a zombie.
pub proof fn law_killed_stays_zombie(m: ManagerView, tid: u64, signal: i32)
    requires
        tids_unique(m.tasks),
        kill_spec(m, tid, signal).1 is Some,
    ensures
        state_of(kill_spec(m, tid, signal).0.tasks, tid) == Some(TaskState::Zombie),
        block_spec(kill_spec(m, tid, signal).0, tid).1 is None,
        state_of(wake_spec(kill_spec(m, tid, signal).0, tid).0.tasks, tid) == Some(TaskState::Zombie),
{
    let i = task_index(m.tasks, tid);
    lemma_task_index(m.tasks, tid);
    let k = kill_spec(m, tid, signal).0;
    assert(k.tasks[i].tid == tid);
    assert(tids_unique(k.tasks)) by {
        assert forall|x: int, y: int| 0 <= x < k.tasks.len() && 0 <= y < k.tasks.len() && x != y implies k.tasks[x].tid != k.tasks[y].tid by {
            assert(k.tasks[x].tid == m.tasks[x].tid && k.tasks[y].tid == m.tasks[y].tid);
        }
    }
    lemma_task_index_unique(k.tasks, tid, i);
}

/// After cleaning up, no zombie is left in the table.
pub proof fn law_cleanup_no_zombies(m: ManagerView, tasks: Seq<TaskView>)
    ensures
        forall|j: int| 0 <= j < kept_after_cleanup(m, tasks).len() ==>
            (#[trigger] kept_after_cleanup(m, tasks)[j]).state != TaskState::Zombie,
    decreases tasks.len(),
{
    if tasks.len() > 0 {
        law_cleanup_no_zombies(m, tasks.drop_last());
        let r = kept_after_cleanup(m, tasks.drop_last());
        assert forall|j: int| 0 <= j < kept_after_cleanup(m, tasks).len() implies
            (#[trigger] kept_after_cleanup(m, tasks)[j]).state != TaskState::Zombie by {
            if j < r.len() {
                assert(kept_after_cleanup(m, tasks)[j] == r[j]);
            }
        }
    }
}

proof fn lemma_first_ready(q: Seq<u64>, tasks: Seq<TaskView>)
    ensures
        -1 <= first_ready(q, tasks) < q.len(),
        first_ready(q, tasks) >= 0 ==> state_of(tasks, q[first_ready(q, tasks)]) == Some(TaskState::Ready),
    decreases q.len(),
{
    if q.len() > 0 && state_of(tasks, q[0]) != Some(TaskState::Ready) {
        lemma_first_ready(q.drop_first(), tasks);
    }
}

/// Switching, when some queued thread is ready, runs a ready thread and
/// moves it to the back of the queue; the table itself does not change.
pub proof fn law_switch_runs_ready(q: Seq<u64>, m: ManagerView)
    requires
        first_ready(q, m.tasks) >= 0,
    ensures
        switch_spec(q, m).2 matches Some(t) && state_of(m.tasks, t) == Some(TaskState::Ready)
            && switch_spec(q, m).1.current == t && switch_spec(q, m).0.last() == t
            && switch_spec(q, m).1.tasks == m.tasks,
        switch_spec(q, m).0.len() <= q.len(),
{
    lemma_first_ready(q, m.tasks);
}


/// Giving thread `i` a new state keeps the table's threads where they are,
/// and the state of every other thread.
proof fn lemma_with_state_states(m: ManagerView, i: int, state: TaskState, data: TaskStateData, t: u64)
    requires
        tids_unique(m.tasks),
        0 <= i < m.tasks.len(),
    ensures
        tids_unique(with_state(m, i, state, data).tasks),
        state_of(with_state(m, i, state, data).tasks, m.tasks[i].tid) == Some(state),
        t != m.tasks[i].tid ==> state_of(with_state(m, i, state, data).tasks, t) == state_of(m.tasks, t),
{
    let w = with_state(m, i, state, data).tasks;
    assert forall|x: int, y: int| 0 <= x < w.len() && 0 <= y < w.len() && x != y implies w[x].tid != w[y].tid by {
        assert(w[x].tid == m.tasks[x].tid && w[y].tid == m.tasks[y].tid);
    }
    lemma_task_index_unique(w, m.tasks[i].tid, i);
    lemma_task_index(m.tasks, t);
    lemma_task_index(w, t);
    if t != m.tasks[i].tid {
        if task_index(m.tasks, t) >= 0 {
            let k = task_index(m.tasks, t);
            assert(w[k].tid == t);
            lemma_task_index_unique(w, t, k);
        } else if task_index(w, t) >= 0 {
            let k = task_index(w, t);
            assert(m.tasks[k].tid == w[k].tid);
        }
    }
}

/// Law: waking a thread that blocks or sleeps makes it ready, and the call
/// succeeds; waking a known thread that is ready, running or a zombie
/// leaves the table as it is and succeeds; waking an unknown thread fails
/// and changes nothing. No other thread's state changes.
pub proof fn law_wake_makes_ready(m: ManagerView, tid: u64, other: u64)
    requires
        tids_unique(m.tasks),
    ensures
        state_of(m.tasks, tid) == Some(TaskState::Blocking) || state_of(m.tasks, tid) == Some(TaskState::Sleeping)
            ==> wake_spec(m, tid).1 == Some(()) && state_of(wake_spec(m, tid).0.tasks, tid) == Some(TaskState::Ready),
        state_of(m.tasks, tid) == Some(TaskState::Ready) || state_of(m.tasks, tid) == Some(TaskState::Running)
            || state_of(m.tasks, tid) == Some(TaskState::Zombie) ==> wake_spec(m, tid) == (m, Some(())),
        state_of(m.tasks, tid) is None ==> wake_spec(m, tid) == (m, None::<()>),
        other != tid ==> state_of(wake_spec(m, tid).0.tasks, other) == state_of(m.tasks, other),
        tids_unique(wake_spec(m, tid).0.tasks),
{
    lemma_task_index(m.tasks, tid);
    let i = task_index(m.tasks, tid);
    if i >= 0 {
        lemma_with_state_states(m, i, TaskState::Ready, m.tasks[i].data, other);
    }
}

/// Law: the run queue rebuilt from a table holds exactly its ready and
/// running threads: every thread whose state is ready or running is in
/// it, and every thread in it is one of the table's, ready or running; a
/// thread of a table without repeats that blocks, sleeps or is a zombie is
/// not in it.
pub proof fn law_runnable_are_queued(tasks: Seq<TaskView>)
    ensures
        forall|i: int|
            0 <= i < tasks.len() && (tasks[i].state == TaskState::Ready || tasks[i].state == TaskState::Running)
                ==> #[trigger] runnable_tids(tasks).contains(tasks[i].tid),
        forall|q: u64|
            #[trigger] runnable_tids(tasks).contains(q) ==> exists|i: int|
                0 <= i < tasks.len() && #[trigger] tasks[i].tid == q && (tasks[i].state == TaskState::Ready
                    || tasks[i].state == TaskState::Running),
        tids_unique(tasks) ==> forall|i: int|
            0 <= i < tasks.len() && tasks[i].state != TaskState::Ready && tasks[i].state != TaskState::Running
                ==> !#[trigger] runnable_tids(tasks).contains(tasks[i].tid),
    decreases tasks.len(),
{
    if tasks.len() > 0 {
        let d = tasks.drop_last();
        let r = runnable_tids(d);
        let last = tasks.last();
        law_runnable_are_queued(d);
        let full = runnable_tids(tasks);
        assert forall|i: int|
            0 <= i < tasks.len() && (tasks[i].state == TaskState::Ready || tasks[i].state == TaskState::Running)
                implies #[trigger] full.contains(tasks[i].tid) by {
            if i < tasks.len() - 1 {
                assert(d[i] == tasks[i]);
                assert(r.contains(d[i].tid));
                let k = choose|k: int| 0 <= k < r.len() && r[k] == d[i].tid;
                if runnable(last.state) {
                    assert(full[k] == r[k]);
                }
            } else {
                assert(full[full.len() - 1] == last.tid);
            }
        }
        assert forall|q: u64| #[trigger] full.contains(q) implies exists|i: int|
            0 <= i < tasks.len() && #[trigger] tasks[i].tid == q && (tasks[i].state == TaskState::Ready
                || tasks[i].state == TaskState::Running) by {
            let k = choose|k: int| 0 <= k < full.len() && full[k] == q;
            if k < r.len() {
                assert(full[k] == r[k]);
                assert(r.contains(q));
                let i = choose|i: int| 0 <= i < d.len() && #[trigger] d[i].tid == q && (d[i].state == TaskState::Ready
                    || d[i].state == TaskState::Running);
                assert(tasks[i] == d[i]);
            } else {
                assert(tasks[tasks.len() - 1].tid == q);
            }
        }
        if tids_unique(tasks) {
            assert(tids_unique(d)) by {
                assert forall|a: int, b: int| 0 <= a < d.len() && 0 <= b < d.len() && a != b implies d[a].tid != d[b].tid by {
                    assert(d[a] == tasks[a] && d[b] == tasks[b]);
                }
            }
            assert forall|i: int|
                0 <= i < tasks.len() && tasks[i].state != TaskState::Ready && tasks[i].state != TaskState::Running
                    implies !#[trigger] full.contains(tasks[i].tid) by {
                if full.contains(tasks[i].tid) {
                    let k = choose|k: int| 0 <= k < full.len() && full[k] == tasks[i].tid;
                    if k < r.len() {
                        assert(full[k] == r[k]);
                        assert(r.contains(tasks[i].tid));
                        let j = choose|j: int| 0 <= j < d.len() && #[trigger] d[j].tid == tasks[i].tid && (d[j].state
                            == TaskState::Ready || d[j].state == TaskState::Running);
                        assert(tasks[j] == d[j]);
                    } else {
                        assert(full[k] == last.tid);
                    }
                }
            }
        }
    }
}


/// Law: blocking a known thread that neither sleeps nor is a zombie makes it
/// block, and the call succeeds; blocking any other thread fails and
/// changes nothing.
pub proof fn law_block_blocks(m: ManagerView, tid: u64)
    requires
        tids_unique(m.tasks),
    ensures
        block_spec(m, tid).1 is Some ==> state_of(block_spec(m, tid).0.tasks, tid) == Some(TaskState::Blocking),
        (state_of(m.tasks, tid) is Some && state_of(m.tasks, tid) != Some(TaskState::Zombie) && state_of(m.tasks, tid)
            != Some(TaskState::Sleeping)) <==> block_spec(m, tid).1 is Some,
        block_spec(m, tid).1 is None ==> block_spec(m, tid).0 == m,
{
    lemma_task_index(m.tasks, tid);
    let i = task_index(m.tasks, tid);
    if i >= 0 {
        lemma_with_state_states(m, i, TaskState::Blocking, m.tasks[i].data, tid);
    }
}

} // verus!
