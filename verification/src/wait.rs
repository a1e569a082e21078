//! What tasks wait on: the conditions they wait for, the kinds of wait
//! queues, the queues that wake them, and the events posted to queues.
use core::hash::{BuildHasher, Hash, Hasher};
use hashbrown::DefaultHashBuilder;
use nblf_queue::{MPMCQueue, PooledStaticQueue};
use std::collections::VecDeque;
use vstd::prelude::*;

use crate::path::Path;
use crate::sched::{ManagerView, TaskManager, block_spec, law_wake_makes_ready, state_of, tids_unique, wake_spec};
use crate::task::{ProcessID, TaskState, ThreadID};

verus! {

/// How many events can be waiting to be processed.
pub const MAX_WAIT_EVENTS: usize = 20;

/// The kind of a wait queue, and what it is about.
#[derive(Debug, PartialEq, Eq, Hash, Clone, Copy, Structural)]
pub enum QueueType {
    Timer,
    KeyBoard,
    Thread(ThreadID),
    Process(ProcessID),
    File(u64),
    Lock(u64),
}

/// A kind of queue as a pair of numbers: the variant's place and its
/// number (0 for the kinds without one). No two kinds share a pair.
pub open spec fn queue_code(k: QueueType) -> (u8, u64) {
    match k {
        QueueType::Timer => (0, 0),
        QueueType::KeyBoard => (1, 0),
        QueueType::Thread(t) => (2, t@),
        QueueType::Process(p) => (3, p.0),
        QueueType::File(h) => (4, h),
        QueueType::Lock(l) => (5, l),
    }
}

/// Kinds with the same pair are the same kind.
pub proof fn lemma_queue_code_injective(a: QueueType, b: QueueType)
    ensures
        queue_code(a) == queue_code(b) ==> a == b,
{
    if let QueueType::Thread(t) = a {
        if let QueueType::Thread(u) = b {
            crate::task::lemma_thread_id_eq(t, u);
        }
    }
}

impl QueueType {
    /// The kind as a pair of numbers; see `queue_code`.
    pub fn code(&self) -> (r: (u8, u64))
        ensures
            r == queue_code(*self),
    {
        match self {
            QueueType::Timer => (0, 0),
            QueueType::KeyBoard => (1, 0),
            QueueType::Thread(t) => (2, t.get_inner()),
            QueueType::Process(p) => (3, p.0),
            QueueType::File(h) => (4, *h),
            QueueType::Lock(l) => (5, *l),
        }
    }
}

/// hashbrown's `DefaultHashBuilder`: the hash of a path's text, as a
/// `Path` hashes. Each new builder draws a fresh random seed, so two calls
/// may give different values and nothing is said of the value.
#[verifier::external_body]
fn path_hash(text: &str) -> (r: u64) {
    let mut hasher = DefaultHashBuilder::default().build_hasher();
    text.hash(&mut hasher);
    hasher.finish()
}

impl QueueType {
    /// The queue of the file at `path`, named by the path's hash.
    pub fn file(path: Path<'_>) -> (r: Self)
        ensures
            r is File,
    {
        QueueType::File(path_hash(path.as_str()))
    }
}

/// An event posted to the queues of one kind, with some data.
#[derive(Debug, PartialEq, Eq)]
pub struct WaitEvent<D> {
    pub event_type: QueueType,
    pub data: D,
}

impl<D: Copy + Default> WaitEvent<D> {
    /// An event with default data.
    pub fn new(event_type: QueueType) -> (r: Self)
        ensures
            r.event_type == event_type,
    {
        WaitEvent { event_type, data: D::default() }
    }

    pub fn with_data(event_type: QueueType, data: D) -> (r: Self)
        ensures
            r.event_type == event_type,
            r.data == data,
    {
        WaitEvent { event_type, data }
    }
}

/// The events posted and not yet handed to the queues, oldest first, in a
/// lock-free queue of `nblf_queue` with room for `MAX_WAIT_EVENTS`.
#[verifier::external_body]
pub struct EventQueue {
    q: PooledStaticQueue<WaitEvent<u64>, MAX_WAIT_EVENTS>,
}

/// The events in an event queue, oldest first, each as its kind and data.
pub uninterp spec fn pending_events(q: EventQueue) -> Seq<(QueueType, u64)>;

/// `PooledStaticQueue::new`: an empty queue.
#[verifier::external_body]
fn events_new() -> (r: EventQueue)
    ensures
        pending_events(r) == Seq::<(QueueType, u64)>::empty(),
{
    EventQueue { q: PooledStaticQueue::new() }
}

/// `MPMCQueue::push` of `PooledStaticQueue`: on success the event goes
/// last. The push may fail (when the queue is full, and, as the crate's
/// documentation allows, spuriously): the event is then handed back and
/// nothing changes. When it fails is not stated.
#[verifier::external_body]
fn events_push(q: &mut EventQueue, event: WaitEvent<u64>) -> (r: Result<(), WaitEvent<u64>>)
    ensures
        match r {
            Ok(()) => pending_events(*final(q)) == pending_events(*old(q)).push((event.event_type, event.data)),
            Err(e) => e == event && pending_events(*final(q)) == pending_events(*old(q)),
        },
{
    q.q.push(event)
}

/// `MPMCQueue::pop` of `PooledStaticQueue`: on success the oldest event,
/// taken out. The pop may give nothing (when the queue is empty, and, as
/// the crate's documentation allows, spuriously): nothing then changes.
/// When it gives nothing is not stated.
#[verifier::external_body]
fn events_pop(q: &mut EventQueue) -> (r: Option<WaitEvent<u64>>)
    ensures
        match r {
            Some(e) => pending_events(*old(q)).len() > 0 && (e.event_type, e.data) == pending_events(*old(q))[0]
                && pending_events(*final(q)) == pending_events(*old(q)).drop_first(),
            None => pending_events(*final(q)) == pending_events(*old(q)),
        },
{
    q.q.pop()
}

impl EventQueue {
    /// No events.
    pub fn new() -> (r: Self)
        ensures
            pending_events(r) == Seq::<(QueueType, u64)>::empty(),
    {
        events_new()
    }
}

/// Posts `event` last among the pending events. The event queue may refuse
/// it (when full, or spuriously): it is then handed back and nothing
/// changes.
pub fn post_event(events: &mut EventQueue, event: WaitEvent<u64>) -> (r: Result<(), WaitEvent<u64>>)
    ensures
        match r {
            Ok(()) => pending_events(*final(events)) == pending_events(*old(events)).push((event.event_type, event.data)),
            Err(e) => e == event && pending_events(*final(events)) == pending_events(*old(events)),
        },
{
    events_push(events, event)
}

/// Takes the oldest pending event; the event queue may give none (when
/// empty, or spuriously), and nothing then changes.
pub fn get_event(events: &mut EventQueue) -> (r: Option<WaitEvent<u64>>)
    ensures
        match r {
            Some(e) => pending_events(*old(events)).len() > 0 && (e.event_type, e.data) == pending_events(*old(events))[0]
                && pending_events(*final(events)) == pending_events(*old(events)).drop_first(),
            None => pending_events(*final(events)) == pending_events(*old(events)),
        },
{
    events_pop(events)
}

/// Events come out in the order they were posted: posting to a queue and
/// then taking from it gives its oldest event, or the one posted when it
/// was empty.
pub proof fn law_events_first_in_first_out(p: Seq<(QueueType, u64)>, e: (QueueType, u64))
    ensures
        p.push(e)[0] == (if p.len() == 0 {
            e
        } else {
            p[0]
        }),
        p.len() > 0 ==> p.push(e).drop_first() == p.drop_first().push(e),
{
    if p.len() > 0 {
        assert(p.push(e).drop_first() =~= p.drop_first().push(e));
    }
}

/// Which changes of a thread a wait for it is about: its exit, its waking
/// up, its blocking.
#[derive(Debug, Clone, Copy, PartialEq, Eq, Structural)]
pub struct ThreadWait {
    pub exit: bool,
    pub wakeup: bool,
    pub block: bool,
}

/// What a waiting thread waits for.
#[derive(Debug, Clone, Copy, PartialEq, Eq, Structural)]
pub enum WaitCondition {
    /// The clock reaching this time.
    Time(u64),
    /// Input from the keyboard.
    Keyboard,
    /// A change of this thread.
    Thread(ThreadID, ThreadWait),
    /// A callback (at this address) saying yes to this value.
    Generic(u64, usize),
    /// Nothing to wait for: always given.
    Always,
}

/// Whether a wait for a thread in `state` is over: a thread that is gone
/// ends it; otherwise its exit as a zombie, its waking as ready or running,
/// or its blocking, each when waited for.
pub open spec fn thread_wait_given(state: Option<TaskState>, w: ThreadWait) -> bool {
    match state {
        None => true,
        Some(s) => (w.exit && s == TaskState::Zombie) || (w.wakeup && (s == TaskState::Ready || s
            == TaskState::Running)) || (w.block && s == TaskState::Blocking),
    }
}

/// Whether a condition is given at time `now`, with the keyboard having
/// input or not, the thread table `m`, and the answer `generic` of a
/// generic condition's callback.
pub open spec fn given(c: WaitCondition, now: u64, keyboard_ready: bool, m: ManagerView, generic: bool) -> bool {
    match c {
        WaitCondition::Time(t) => t <= now,
        WaitCondition::Keyboard => keyboard_ready,
        WaitCondition::Thread(id, w) => thread_wait_given(state_of(m.tasks, id@), w),
        WaitCondition::Generic(_, _) => generic,
        WaitCondition::Always => true,
    }
}

impl WaitCondition {
    /// Whether the condition is given; see `given`.
    pub fn is_given(&self, now: u64, keyboard_ready: bool, tasks: &TaskManager, generic: bool) -> (r: bool)
        requires
            tasks.wf(),
        ensures
            r == given(*self, now, keyboard_ready, tasks.view(), generic),
    {
        match self {
            WaitCondition::Time(t) => *t <= now,
            WaitCondition::Keyboard => keyboard_ready,
            WaitCondition::Thread(id, w) => match tasks.thread_state(*id) {
                None => true,
                Some(s) => (w.exit && s == TaskState::Zombie) || (w.wakeup && (s == TaskState::Ready
                    || s == TaskState::Running)) || (w.block && s == TaskState::Blocking),
            },
            WaitCondition::Generic(_, _) => generic,
            WaitCondition::Always => true,
        }
    }
}

/// Waking the threads `ids` in turn: the table after, and the threads that
/// could not be woken, in order.
pub open spec fn wake_all(m: ManagerView, ids: Seq<u64>) -> (ManagerView, Seq<u64>)
    decreases ids.len(),
{
    if ids.len() == 0 {
        (m, Seq::empty())
    } else {
        let (m1, f1) = wake_all(m, ids.drop_last());
        let (m2, r) = wake_spec(m1, ids.last());
        (m2, if r is None { f1.push(ids.last()) } else { f1 })
    }
}

/// One entry of a queue before another: by time, then by thread.
pub open spec fn entry_le(a: (u64, u64), b: (u64, u64)) -> bool {
    a.0 < b.0 || (a.0 == b.0 && a.1 <= b.1)
}

pub open spec fn sorted_entries(v: Seq<(u64, u64)>) -> bool {
    forall|i: int, j: int| 0 <= i < j < v.len() ==> entry_le(#[trigger] v[i], #[trigger] v[j])
}

/// How many entries at the front of `v` come before or with `x`.
pub open spec fn count_le(v: Seq<(u64, u64)>, x: (u64, u64)) -> nat
    decreases v.len(),
{
    if v.len() == 0 || !entry_le(v[0], x) {
        0
    } else {
        1 + count_le(v.drop_first(), x)
    }
}

/// How many entries at the front of `v` are due at time `now`.
pub open spec fn count_due(v: Seq<(u64, u64)>, now: u64) -> nat
    decreases v.len(),
{
    if v.len() == 0 || v[0].0 > now {
        0
    } else {
        1 + count_due(v.drop_first(), now)
    }
}

pub open spec fn entry_ids(v: Seq<(u64, u64)>) -> Seq<u64> {
    v.map_values(|e: (u64, u64)| e.1)
}

/// The entries at the front that are all due count as due.
proof fn lemma_count_due_prefix(w: Seq<(u64, u64)>, now: u64, j: int)
    requires
        0 <= j < w.len(),
        forall|i: int| 0 <= i <= j ==> #[trigger] w[i].0 <= now,
    ensures
        count_due(w, now) >= j + 1,
    decreases j,
{
    if j > 0 {
        assert forall|i: int| 0 <= i <= j - 1 implies #[trigger] w.drop_first()[i].0 <= now by {
            assert(w.drop_first()[i] == w[i + 1]);
        }
        lemma_count_due_prefix(w.drop_first(), now, j - 1);
    }
}

proof fn lemma_count_due_len(w: Seq<(u64, u64)>, now: u64)
    ensures
        count_due(w, now) <= w.len(),
    decreases w.len(),
{
    if w.len() > 0 && w[0].0 <= now {
        lemma_count_due_len(w.drop_first(), now);
    }
}

/// The entries counted by `count_le` come before or with `x`.
proof fn lemma_count_le(v: Seq<(u64, u64)>, x: (u64, u64))
    ensures
        count_le(v, x) <= v.len(),
        forall|i: int| 0 <= i < count_le(v, x) ==> entry_le(#[trigger] v[i], x),
    decreases v.len(),
{
    if v.len() > 0 && entry_le(v[0], x) {
        lemma_count_le(v.drop_first(), x);
        assert forall|i: int| 0 <= i < count_le(v, x) implies entry_le(#[trigger] v[i], x) by {
            if i > 0 {
                assert(v[i] == v.drop_first()[i - 1]);
            }
        }
    }
}

/// Law: a thread queued for a time that has come by `now` is among those
/// the next signal at `now` wakes.
pub proof fn law_due_thread_woken(v: Seq<(u64, u64)>, t: u64, id: u64, now: u64)
    requires
        sorted_entries(v),
        t <= now,
    ensures
        ({
            let p = count_le(v, (t, id)) as int;
            let w = v.take(p).push((t, id)) + v.skip(p);
            entry_ids(w.take(count_due(w, now) as int)).contains(id)
        }),
{
    let x = (t, id);
    lemma_count_le(v, x);
    let p = count_le(v, x) as int;
    let w = v.take(p).push(x) + v.skip(p);
    assert(w[p] == x);
    assert forall|i: int| 0 <= i <= p implies #[trigger] w[i].0 <= now by {
        if i < p {
            assert(w[i] == v[i]);
            assert(entry_le(v[i], x));
        }
    }
    lemma_count_due_prefix(w, now, p);
    lemma_count_due_len(w, now);
    let ids = entry_ids(w.take(count_due(w, now) as int));
    assert(w.take(count_due(w, now) as int)[p] == x);
    assert(ids[p] == id);
}

/// The queue of threads waiting for times: entries of time and thread,
/// earliest first (ties by thread).
pub struct TimeWaitQueue {
    inner: Vec<(u64, ThreadID)>,
}

impl TimeWaitQueue {
    pub closed spec fn view(&self) -> Seq<(u64, u64)> {
        self.inner@.map_values(|e: (u64, ThreadID)| (e.0, e.1@))
    }

    pub open spec fn wf(&self) -> bool {
        sorted_entries(self.view())
    }

    pub fn new() -> (r: Self)
        ensures
            r.wf(),
            r.view() == Seq::<(u64, u64)>::empty(),
    {
        let r = TimeWaitQueue { inner: Vec::new() };
        assert(r.view() =~= Seq::<(u64, u64)>::empty());
        r
    }

    /// Queues thread `id` until the time of `condition`, after the entries
    /// that come before or with it; a condition that is not a time is not
    /// queued here, and the call fails.
    pub fn enqueue(&mut self, id: ThreadID, condition: WaitCondition) -> (r: Option<()>)
        requires
            old(self).wf(),
        ensures
            final(self).wf(),
            match condition {
                WaitCondition::Time(t) => {
                    let p = count_le(old(self).view(), (t, id@)) as int;
                    r is Some && final(self).view() == old(self).view().take(p).push((t, id@)) + old(self).view().skip(p)
                },
                _ => r is None && final(self).view() == old(self).view(),
            },
    {
        let t = match condition {
            WaitCondition::Time(t) => t,
            _ => return None,
        };
        let ghost v = self.view();
        let ghost x = (t, id@);
        let mut p: usize = 0;
        proof {
            assert(v.skip(0) =~= v);
        }
        while p < self.inner.len()
            invariant
                v == self.view(),
                p <= v.len(),
                sorted_entries(v),
                x == (t, id@),
                count_le(v, x) == p + count_le(v.skip(p as int), x),
                forall|i: int| 0 <= i < p ==> entry_le(#[trigger] v[i], x),
            ensures
                p < v.len() ==> !entry_le(v[p as int], x),
            decreases v.len() - p,
        {
            let (et, eid) = self.inner[p];
            proof {
                assert(v[p as int] == (et, eid@));
            }
            if !(et < t || (et == t && eid.get_inner() <= id.get_inner())) {
                break;
            }
            proof {
                let w = v.skip(p as int);
                assert(w[0] == v[p as int]);
                assert(w.drop_first() =~= v.skip(p + 1));
                assert(count_le(w, x) == 1 + count_le(w.drop_first(), x));
            }
            p = p + 1;
        }
        proof {
            let w = v.skip(p as int);
            if p < v.len() {
                assert(w[0] == v[p as int]);
                assert(count_le(w, x) == 0);
            } else {
                assert(w =~= Seq::<(u64, u64)>::empty());
            }
        }
        self.inner.insert(p, (t, id));
        proof {
            let target = v.take(p as int).push(x) + v.skip(p as int);
            assert(self.view() =~= target);
            assert forall|i: int, j: int| 0 <= i < j < target.len() implies entry_le(#[trigger] target[i], #[trigger] target[j]) by {
                if j < p {
                    assert(target[i] == v[i] && target[j] == v[j]);
                } else if j == p {
                    assert(target[i] == v[i]);
                } else if i < p {
                    assert(target[i] == v[i] && target[j] == v[j - 1]);
                } else if i == p {
                    assert(target[j] == v[j - 1]);
                    assert(!entry_le(v[p as int], x) || p == v.len());
                } else {
                    assert(target[i] == v[i - 1] && target[j] == v[j - 1]);
                }
            }
        }
        Some(())
    }

    /// Wakes, earliest first, every thread whose time has come by `now`,
    /// and takes it out of the queue; the threads that could not be woken
    /// are returned, in order.
    pub fn signal(&mut self, now: u64, tasks: &mut TaskManager) -> (failed: Vec<ThreadID>)
        requires
            old(self).wf(),
            old(tasks).wf(),
        ensures
            final(self).wf(),
            final(tasks).wf(),
            final(self).view() == old(self).view().skip(count_due(old(self).view(), now) as int),
            (final(tasks).view(), failed@.map_values(|t: ThreadID| t@)) == wake_all(
                old(tasks).view(),
                entry_ids(old(self).view().take(count_due(old(self).view(), now) as int)),
            ),
    {
        let ghost v = self.view();
        let ghost m0 = tasks.view();
        let mut failed: Vec<ThreadID> = Vec::new();
        let mut k: usize = 0;
        proof {
            assert(v.skip(0) =~= v);
            assert(entry_ids(v.take(0)) =~= Seq::<u64>::empty());
            assert(failed@.map_values(|t: ThreadID| t@) =~= Seq::<u64>::empty());
        }
        while k < self.inner.len()
            invariant
                v == self.view(),
                k <= v.len(),
                tasks.wf(),
                count_due(v, now) == k + count_due(v.skip(k as int), now),
                (tasks.view(), failed@.map_values(|t: ThreadID| t@)) == wake_all(m0, entry_ids(v.take(k as int))),
            ensures
                k < v.len() ==> v[k as int].0 > now,
            decreases v.len() - k,
        {
            let (t, id) = self.inner[k];
            proof {
                assert(v[k as int] == (t, id@));
            }
            if t > now {
                break;
            }
            proof {
                let w = v.skip(k as int);
                assert(w[0] == v[k as int]);
                assert(w.drop_first() =~= v.skip(k + 1));
                assert(count_due(w, now) == 1 + count_due(w.drop_first(), now));
            }
            let ghost f0 = failed@;
            let woke = tasks.wake(id);
            if woke.is_none() {
                failed.push(id);
            }
            proof {
                assert(entry_ids(v.take(k + 1)).drop_last() =~= entry_ids(v.take(k as int)));
                assert(entry_ids(v.take(k + 1)).last() == id@);
                assert(failed@.map_values(|t: ThreadID| t@) =~= (if woke is None {
                    f0.map_values(|t: ThreadID| t@).push(id@)
                } else {
                    f0.map_values(|t: ThreadID| t@)
                }));
            }
            k = k + 1;
        }
        proof {
            let w = v.skip(k as int);
            if k < v.len() {
                assert(w[0] == v[k as int]);
                assert(count_due(w, now) == 0);
            } else {
                assert(w =~= Seq::<(u64, u64)>::empty());
            }
        }
        let ghost inner0 = self.inner@;
        let rest = self.inner.split_off(k);
        self.inner = rest;
        proof {
            assert(self.inner@ == inner0.subrange(k as int, inner0.len() as int));
            assert(self.view() =~= v.skip(k as int));
            assert forall|a: int, b: int| 0 <= a < b < self.view().len() implies entry_le(#[trigger] self.view()[a], #[trigger] self.view()[b]) by {
                assert(self.view()[a] == v[a + k] && self.view()[b] == v[b + k]);
            }
        }
        failed
    }
}

/// The queue of threads waiting for the keyboard, first come first served,
/// with what each waits for.
pub struct KeyBoardQueue {
    q: VecDeque<(ThreadID, WaitCondition)>,
}

impl KeyBoardQueue {
    pub closed spec fn view(&self) -> Seq<(u64, WaitCondition)> {
        self.q@.map_values(|e: (ThreadID, WaitCondition)| (e.0@, e.1))
    }

    pub fn new() -> (r: Self)
        ensures
            r.view() == Seq::<(u64, WaitCondition)>::empty(),
    {
        let r = KeyBoardQueue { q: VecDeque::new() };
        assert(r.view() =~= Seq::<(u64, WaitCondition)>::empty());
        r
    }

    /// Queues thread `id` last, with its condition.
    pub fn enqueue(&mut self, id: ThreadID, condition: WaitCondition) -> (r: Option<()>)
        ensures
            r is Some,
            final(self).view() == old(self).view().push((id@, condition)),
    {
        self.q.push_back((id, condition));
        assert(self.view() =~= old(self).view().push((id@, condition)));
        Some(())
    }

    /// Empties the queue, waking every thread in it in order; the threads
    /// that could not be woken are returned, in order.
    pub fn signal(&mut self, tasks: &mut TaskManager) -> (failed: Vec<ThreadID>)
        requires
            old(tasks).wf(),
        ensures
            final(tasks).wf(),
            final(self).view() == Seq::<(u64, WaitCondition)>::empty(),
            (final(tasks).view(), failed@.map_values(|t: ThreadID| t@)) == wake_all(
                old(tasks).view(),
                old(self).view().map_values(|e: (u64, WaitCondition)| e.0),
            ),
    {
        let ghost v = self.view();
        let ghost ids = v.map_values(|e: (u64, WaitCondition)| e.0);
        let ghost m0 = tasks.view();
        let mut failed: Vec<ThreadID> = Vec::new();
        let mut k: usize = 0;
        proof {
            assert(ids.take(0) =~= Seq::<u64>::empty());
            assert(failed@.map_values(|t: ThreadID| t@) =~= Seq::<u64>::empty());
        }
        while k < self.q.len()
            invariant
                v == self.view(),
                ids == v.map_values(|e: (u64, WaitCondition)| e.0),
                k <= v.len(),
                tasks.wf(),
                (tasks.view(), failed@.map_values(|t: ThreadID| t@)) == wake_all(m0, ids.take(k as int)),
            decreases v.len() - k,
        {
            let (id, _) = self.q[k];
            let ghost f0 = failed@;
            let woke = tasks.wake(id);
            if woke.is_none() {
                failed.push(id);
            }
            proof {
                assert(v[k as int].0 == id@);
                assert(ids.take(k + 1).drop_last() =~= ids.take(k as int));
                assert(ids.take(k + 1).last() == id@);
                assert(failed@.map_values(|t: ThreadID| t@) =~= (if woke is None {
                    f0.map_values(|t: ThreadID| t@).push(id@)
                } else {
                    f0.map_values(|t: ThreadID| t@)
                }));
            }
            k = k + 1;
        }
        proof {
            assert(ids.take(v.len() as int) =~= ids);
        }
        self.q = VecDeque::new();
        assert(self.view() =~= Seq::<(u64, WaitCondition)>::empty());
        failed
    }
}

/// Going through the waiting threads `nodes` in turn, each waking when its
/// condition is given (judged on the table as it is by then, with the
/// callback answers `answers`): the table after, and the threads that could
/// not be woken, in order.
pub open spec fn wake_given(
    m: ManagerView,
    nodes: Seq<(u64, WaitCondition)>,
    now: u64,
    keyboard_ready: bool,
    answers: Seq<bool>,
) -> (ManagerView, Seq<u64>)
    decreases nodes.len(),
{
    if nodes.len() == 0 {
        (m, Seq::empty())
    } else {
        let (m1, f1) = wake_given(m, nodes.drop_last(), now, keyboard_ready, answers);
        let i = nodes.len() - 1;
        if given(nodes[i].1, now, keyboard_ready, m1, answers[i]) {
            let (m2, r) = wake_spec(m1, nodes[i].0);
            (m2, if r is None { f1.push(nodes[i].0) } else { f1 })
        } else {
            (m1, f1)
        }
    }
}

/// A queue of threads waiting for anything, first come first served, with
/// what each waits for.
pub struct GenericWaitQueue {
    q: VecDeque<(ThreadID, WaitCondition)>,
}

impl GenericWaitQueue {
    pub closed spec fn view(&self) -> Seq<(u64, WaitCondition)> {
        self.q@.map_values(|e: (ThreadID, WaitCondition)| (e.0@, e.1))
    }

    pub fn new() -> (r: Self)
        ensures
            r.view() == Seq::<(u64, WaitCondition)>::empty(),
    {
        let r = GenericWaitQueue { q: VecDeque::new() };
        assert(r.view() =~= Seq::<(u64, WaitCondition)>::empty());
        r
    }

    /// Queues thread `id` last, with its condition.
    pub fn enqueue(&mut self, id: ThreadID, condition: WaitCondition) -> (r: Option<()>)
        ensures
            r is Some,
            final(self).view() == old(self).view().push((id@, condition)),
    {
        self.q.push_back((id, condition));
        assert(self.view() =~= old(self).view().push((id@, condition)));
        Some(())
    }

    /// The conditions waited for, in order, so that the callbacks of generic
    /// ones can be asked before signalling.
    pub fn conditions(&self) -> (r: Vec<WaitCondition>)
        ensures
            r@ == self.view().map_values(|e: (u64, WaitCondition)| e.1),
    {
        let mut r: Vec<WaitCondition> = Vec::new();
        let mut k: usize = 0;
        while k < self.q.len()
            invariant
                k <= self.view().len(),
                r@ == self.view().take(k as int).map_values(|e: (u64, WaitCondition)| e.1),
            decreases self.view().len() - k,
        {
            let (_, c) = self.q[k];
            r.push(c);
            proof {
                assert(self.view()[k as int].1 == c);
                assert(r@ =~= self.view().take(k + 1).map_values(|e: (u64, WaitCondition)| e.1));
            }
            k = k + 1;
        }
        proof {
            assert(self.view().take(self.view().len() as int) =~= self.view());
        }
        r
    }

    /// Empties the queue, waking, in order, each thread whose condition is
    /// given at time `now` (see `wake_given`; `answers` holds the callbacks'
    /// answers for generic conditions, in the queue's order); the others
    /// are dropped. The threads that could not be woken are returned, in
    /// order.
    pub fn signal(
        &mut self,
        now: u64,
        keyboard_ready: bool,
        answers: &Vec<bool>,
        tasks: &mut TaskManager,
    ) -> (failed: Vec<ThreadID>)
        requires
            old(tasks).wf(),
            answers@.len() == old(self).view().len(),
        ensures
            final(tasks).wf(),
            final(self).view() == Seq::<(u64, WaitCondition)>::empty(),
            (final(tasks).view(), failed@.map_values(|t: ThreadID| t@)) == wake_given(
                old(tasks).view(),
                old(self).view(),
                now,
                keyboard_ready,
                answers@,
            ),
    {
        let ghost v = self.view();
        let ghost m0 = tasks.view();
        let mut failed: Vec<ThreadID> = Vec::new();
        let mut k: usize = 0;
        proof {
            assert(v.take(0) =~= Seq::<(u64, WaitCondition)>::empty());
            assert(failed@.map_values(|t: ThreadID| t@) =~= Seq::<u64>::empty());
        }
        while k < self.q.len()
            invariant
                v == self.view(),
                k <= v.len(),
                answers@.len() == v.len(),
                tasks.wf(),
                (tasks.view(), failed@.map_values(|t: ThreadID| t@)) == wake_given(m0, v.take(k as int), now, keyboard_ready, answers@),
            decreases v.len() - k,
        {
            let (id, c) = self.q[k];
            let ghost f0 = failed@;
            let ghost m1 = tasks.view();
            proof {
                assert(v[k as int] == (id@, c));
                assert(v.take(k + 1).drop_last() =~= v.take(k as int));
                assert(v.take(k + 1)[k as int] == v[k as int]);
            }
            if c.is_given(now, keyboard_ready, tasks, answers[k]) {
                let woke = tasks.wake(id);
                if woke.is_none() {
                    failed.push(id);
                }
                proof {
                    assert(failed@.map_values(|t: ThreadID| t@) =~= (if woke is None {
                        f0.map_values(|t: ThreadID| t@).push(id@)
                    } else {
                        f0.map_values(|t: ThreadID| t@)
                    }));
                }
            }
            k = k + 1;
        }
        proof {
            assert(v.take(v.len() as int) =~= v);
        }
        self.q = VecDeque::new();
        assert(self.view() =~= Seq::<(u64, WaitCondition)>::empty());
        failed
    }
}


/// Law: a wait for a thread is over once the thread is gone; once it is
/// ready or running, when its waking is waited for; once it is a zombie,
/// when its exit is; once it blocks, when its blocking is. While it sleeps
/// no such wait is over, and a wait for nothing of it is over only when it
/// is gone.
pub proof fn law_thread_wait_given(id: ThreadID, w: ThreadWait, now: u64, keyboard_ready: bool, m: ManagerView, generic: bool)
    ensures
        state_of(m.tasks, id@) is None ==> given(WaitCondition::Thread(id, w), now, keyboard_ready, m, generic),
        w.wakeup && (state_of(m.tasks, id@) == Some(TaskState::Ready) || state_of(m.tasks, id@) == Some(
            TaskState::Running,
        )) ==> given(WaitCondition::Thread(id, w), now, keyboard_ready, m, generic),
        w.exit && state_of(m.tasks, id@) == Some(TaskState::Zombie) ==> given(
            WaitCondition::Thread(id, w),
            now,
            keyboard_ready,
            m,
            generic,
        ),
        w.block && state_of(m.tasks, id@) == Some(TaskState::Blocking) ==> given(
            WaitCondition::Thread(id, w),
            now,
            keyboard_ready,
            m,
            generic,
        ),
        state_of(m.tasks, id@) == Some(TaskState::Sleeping) ==> !given(
            WaitCondition::Thread(id, w),
            now,
            keyboard_ready,
            m,
            generic,
        ),
        !w.exit && !w.wakeup && !w.block && state_of(m.tasks, id@) is Some ==> !given(
            WaitCondition::Thread(id, w),
            now,
            keyboard_ready,
            m,
            generic,
        ),
{
}

/// Law: a wait for a time is over once the clock has reached it; a wait
/// for the keyboard once it has input; a wait on a callback once the
/// callback says yes; a wait for nothing at once.
pub proof fn law_other_waits_given(t: u64, value: u64, callback: usize, now: u64, keyboard_ready: bool, m: ManagerView, generic: bool)
    ensures
        given(WaitCondition::Time(t), now, keyboard_ready, m, generic) <==> t <= now,
        given(WaitCondition::Keyboard, now, keyboard_ready, m, generic) <==> keyboard_ready,
        given(WaitCondition::Generic(value, callback), now, keyboard_ready, m, generic) <==> generic,
        given(WaitCondition::Always, now, keyboard_ready, m, generic),
{
}

/// Law: waking a thread that blocks or sleeps ends every wait for its
/// waking, and blocking a thread ends every wait for its blocking.
pub proof fn law_wake_ends_waits(id: ThreadID, w: ThreadWait, now: u64, keyboard_ready: bool, m: ManagerView, generic: bool)
    requires
        tids_unique(m.tasks),
    ensures
        w.wakeup && (state_of(m.tasks, id@) == Some(TaskState::Blocking) || state_of(m.tasks, id@) == Some(
            TaskState::Sleeping,
        )) ==> given(WaitCondition::Thread(id, w), now, keyboard_ready, wake_spec(m, id@).0, generic),
        w.block && block_spec(m, id@).1 is Some ==> given(
            WaitCondition::Thread(id, w),
            now,
            keyboard_ready,
            block_spec(m, id@).0,
            generic,
        ),
{
    law_wake_makes_ready(m, id@, id@);
    crate::sched::law_block_blocks(m, id@);
}

} // verus!
