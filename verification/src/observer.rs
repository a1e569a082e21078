//! The wait queues of the kernel, one per kind of thing waited for, and how
//! events reach them and waiting threads are filed in them.
use vstd::prelude::*;

use crate::sched::{ManagerView, TaskManager};
use crate::task::ThreadID;
use crate::wait::{
    GenericWaitQueue, KeyBoardQueue, QueueType, TimeWaitQueue, WaitCondition, count_due, count_le,
    entry_ids, given, lemma_queue_code_injective, queue_code, sorted_entries, wake_all, wake_given,
};

verus! {

/// A wait queue, as plain values.
pub enum QueueView {
    Time(Seq<(u64, u64)>),
    KeyBoard(Seq<(u64, WaitCondition)>),
    Generic(Seq<(u64, WaitCondition)>),
}

/// A wait queue of one of the kinds.
pub enum WaitQueue {
    Time(TimeWaitQueue),
    KeyBoard(KeyBoardQueue),
    Generic(GenericWaitQueue),
}

/// A time queue is kept in order.
pub open spec fn queue_wf(q: QueueView) -> bool {
    match q {
        QueueView::Time(v) => sorted_entries(v),
        _ => true,
    }
}

/// Queuing thread `id` for `c`: a time queue files it by its time (and
/// takes nothing but times); the others queue it last.
pub open spec fn queue_enqueued(q: QueueView, id: u64, c: WaitCondition) -> QueueView {
    match q {
        QueueView::Time(v) => match c {
            WaitCondition::Time(t) => {
                let p = count_le(v, (t, id)) as int;
                QueueView::Time(v.take(p).push((t, id)) + v.skip(p))
            },
            _ => q,
        },
        QueueView::KeyBoard(v) => QueueView::KeyBoard(v.push((id, c))),
        QueueView::Generic(v) => QueueView::Generic(v.push((id, c))),
    }
}

/// Signalling a queue at time `now`: a time queue wakes the threads that
/// are due; the keyboard queue wakes all; a generic queue wakes those whose
/// condition is given. The queue after, the thread table after, and the
/// threads that could not be woken, in order.
pub open spec fn queue_signalled(q: QueueView, m: ManagerView, now: u64, keyboard_ready: bool, answers: Seq<bool>) -> (
    QueueView,
    ManagerView,
    Seq<u64>,
) {
    match q {
        QueueView::Time(v) => {
            let d = count_due(v, now) as int;
            let (m2, f) = wake_all(m, entry_ids(v.take(d)));
            (QueueView::Time(v.skip(d)), m2, f)
        },
        QueueView::KeyBoard(v) => {
            let (m2, f) = wake_all(m, v.map_values(|e: (u64, WaitCondition)| e.0));
            (QueueView::KeyBoard(Seq::empty()), m2, f)
        },
        QueueView::Generic(v) => {
            let (m2, f) = wake_given(m, v, now, keyboard_ready, answers);
            (QueueView::Generic(Seq::empty()), m2, f)
        },
    }
}

/// The callback answers fit the queue: one per entry of a generic queue.
pub open spec fn answers_fit(q: QueueView, answers: Seq<bool>) -> bool {
    q matches QueueView::Generic(v) ==> answers.len() == v.len()
}

impl WaitQueue {
    pub open spec fn view(&self) -> QueueView {
        match self {
            WaitQueue::Time(q) => QueueView::Time(q.view()),
            WaitQueue::KeyBoard(q) => QueueView::KeyBoard(q.view()),
            WaitQueue::Generic(q) => QueueView::Generic(q.view()),
        }
    }

    /// Queues thread `id` for `condition`; see `queue_enqueued`. Only a
    /// time queue refuses, a condition that is not a time.
    pub fn enqueue(&mut self, id: ThreadID, condition: WaitCondition) -> (r: Option<()>)
        requires
            queue_wf(old(self).view()),
        ensures
            queue_wf(final(self).view()),
            final(self).view() == queue_enqueued(old(self).view(), id@, condition),
            r is None <==> (old(self).view() is Time && !(condition is Time)),
    {
        match self {
            WaitQueue::Time(q) => q.enqueue(id, condition),
            WaitQueue::KeyBoard(q) => q.enqueue(id, condition),
            WaitQueue::Generic(q) => q.enqueue(id, condition),
        }
    }

    /// Signals the queue; see `queue_signalled`.
    pub fn signal(&mut self, now: u64, keyboard_ready: bool, answers: &Vec<bool>, tasks: &mut TaskManager) -> (failed: Vec<ThreadID>)
        requires
            queue_wf(old(self).view()),
            old(tasks).wf(),
            answers_fit(old(self).view(), answers@),
        ensures
            queue_wf(final(self).view()),
            final(tasks).wf(),
            (final(self).view(), final(tasks).view(), failed@.map_values(|t: ThreadID| t@)) == queue_signalled(
                old(self).view(),
                old(tasks).view(),
                now,
                keyboard_ready,
                answers@,
            ),
    {
        match self {
            WaitQueue::Time(q) => q.signal(now, tasks),
            WaitQueue::KeyBoard(q) => q.signal(tasks),
            WaitQueue::Generic(q) => q.signal(now, keyboard_ready, answers, tasks),
        }
    }
}

/// Where the queue of kind `k` is among `s`, or -1.
pub open spec fn key_index(s: Seq<(QueueType, QueueView)>, k: QueueType) -> int
    decreases s.len(),
{
    if s.len() == 0 {
        -1
    } else if s.last().0 == k {
        s.len() - 1
    } else {
        key_index(s.drop_last(), k)
    }
}

/// The queues of `s` by kind.
pub open spec fn queue_map(s: Seq<(QueueType, QueueView)>) -> Map<QueueType, QueueView> {
    Map::new(|k: QueueType| key_index(s, k) >= 0, |k: QueueType| s[key_index(s, k)].1)
}

/// No kind has two queues.
pub open spec fn kinds_unique(s: Seq<(QueueType, QueueView)>) -> bool {
    forall|i: int, j: int| 0 <= i < s.len() && 0 <= j < s.len() && i != j ==> s[i].0 != s[j].0
}

proof fn lemma_key_index(s: Seq<(QueueType, QueueView)>, k: QueueType)
    ensures
        -1 <= key_index(s, k) < s.len(),
        key_index(s, k) >= 0 ==> s[key_index(s, k)].0 == k,
        key_index(s, k) < 0 ==> forall|i: int| 0 <= i < s.len() ==> #[trigger] s[i].0 != k,
        kinds_unique(s) ==> forall|i: int| 0 <= i < s.len() && #[trigger] s[i].0 == k ==> i == key_index(s, k),
    decreases s.len(),
{
    if s.len() > 0 && s.last().0 != k {
        let t = s.drop_last();
        lemma_key_index(t, k);
        assert forall|i: int| 0 <= i < s.len() - 1 implies #[trigger] s[i] == t[i] by {}
        if kinds_unique(s) {
            assert(kinds_unique(t)) by {
                assert forall|i: int, j: int| 0 <= i < t.len() && 0 <= j < t.len() && i != j implies t[i].0 != t[j].0 by {
                    assert(t[i] == s[i] && t[j] == s[j]);
                }
            }
        }
    }
}

/// With no kind twice, the queue of a kind is the one filed under it.
proof fn lemma_queue_map_at(s: Seq<(QueueType, QueueView)>, i: int)
    requires
        kinds_unique(s),
        0 <= i < s.len(),
    ensures
        queue_map(s).contains_key(s[i].0),
        queue_map(s)[s[i].0] == s[i].1,
{
    lemma_key_index(s, s[i].0);
}

/// Replacing the queue filed at `i` replaces the queue of its kind.
proof fn lemma_update_entry(s: Seq<(QueueType, QueueView)>, i: int, qv: QueueView)
    requires
        kinds_unique(s),
        0 <= i < s.len(),
    ensures
        kinds_unique(s.update(i, (s[i].0, qv))),
        queue_map(s.update(i, (s[i].0, qv))) == queue_map(s).insert(s[i].0, qv),
{
    let t = s.update(i, (s[i].0, qv));
    let key = s[i].0;
    assert forall|a: int, b: int| 0 <= a < t.len() && 0 <= b < t.len() && a != b implies t[a].0 != t[b].0 by {
        assert(t[a].0 == s[a].0 && t[b].0 == s[b].0);
    }
    assert(queue_map(t) =~= queue_map(s).insert(key, qv)) by {
        assert forall|kk: QueueType| #[trigger] queue_map(t).contains_key(kk) == queue_map(s).insert(key, qv).contains_key(kk) && (
        queue_map(t).contains_key(kk) ==> queue_map(t)[kk] == queue_map(s).insert(key, qv)[kk]) by {
            lemma_key_index(t, kk);
            lemma_key_index(s, kk);
            if key_index(s, kk) >= 0 {
                let a = key_index(s, kk);
                assert(t[a].0 == s[a].0);
                assert(key_index(t, kk) == a);
                if a != i {
                    assert(t[a] == s[a]);
                }
            } else {
                if key_index(t, kk) >= 0 {
                    let a = key_index(t, kk);
                    assert(t[a].0 == s[a].0);
                }
            }
        }
    }
}

/// Where each queue of the observer sits, by its kind's pair of numbers
/// (see `queue_code`), kept in a hashbrown `HashMap`.
#[verifier::external_body]
pub struct QueueIndex {
    map: hashbrown::HashMap<(u8, u64), usize>,
}

/// What the index holds: the position filed under each pair.
pub uninterp spec fn queue_index(t: QueueIndex) -> Map<(u8, u64), usize>;

/// `hashbrown::HashMap::new`: an empty index.
#[verifier::external_body]
fn index_new() -> (r: QueueIndex)
    ensures
        queue_index(r).dom().is_empty(),
{
    QueueIndex { map: hashbrown::HashMap::new() }
}

/// `hashbrown::HashMap::insert`: `key` now maps to `pos`; the position it
/// mapped to before, if any, is returned.
#[verifier::external_body]
fn index_insert(t: &mut QueueIndex, key: (u8, u64), pos: usize) -> (r: Option<usize>)
    ensures
        queue_index(*final(t)) == queue_index(*old(t)).insert(key, pos),
        r == (if queue_index(*old(t)).contains_key(key) {
            Some(queue_index(*old(t))[key])
        } else {
            None
        }),
{
    t.map.insert(key, pos)
}

/// `hashbrown::HashMap::remove`: `key` is taken out; the position it
/// mapped to, if any, is returned.
#[verifier::external_body]
fn index_remove(t: &mut QueueIndex, key: (u8, u64)) -> (r: Option<usize>)
    ensures
        queue_index(*final(t)) == queue_index(*old(t)).remove(key),
        r == (if queue_index(*old(t)).contains_key(key) {
            Some(queue_index(*old(t))[key])
        } else {
            None
        }),
{
    t.map.remove(&key)
}

/// `hashbrown::HashMap::get`: the position `key` maps to, if any.
#[verifier::external_body]
fn index_get(t: &QueueIndex, key: (u8, u64)) -> (r: Option<usize>)
    ensures
        r == (if queue_index(*t).contains_key(key) {
            Some(queue_index(*t)[key])
        } else {
            None
        }),
{
    t.map.get(&key).copied()
}

/// The index files each queue of `s` under its kind's pair, at its
/// position, and nothing else.
pub open spec fn index_matches(ix: Map<(u8, u64), usize>, s: Seq<(QueueType, QueueView)>) -> bool {
    &&& forall|i: int| 0 <= i < s.len() ==> ix.contains_key(queue_code(#[trigger] s[i].0)) && ix[queue_code(s[i].0)] == i
    &&& forall|c: (u8, u64)| #[trigger] ix.contains_key(c) ==> ix[c] < s.len() && queue_code(s[ix[c] as int].0) == c
}

/// Changing only the queues, not their kinds, keeps the index right.
proof fn lemma_index_same_kinds(ix: Map<(u8, u64), usize>, s: Seq<(QueueType, QueueView)>, t: Seq<(QueueType, QueueView)>)
    requires
        index_matches(ix, s),
        t.len() == s.len(),
        forall|j: int| 0 <= j < s.len() ==> #[trigger] t[j].0 == s[j].0,
    ensures
        index_matches(ix, t),
{
    assert forall|i: int| 0 <= i < t.len() implies ix.contains_key(queue_code(#[trigger] t[i].0)) && ix[queue_code(t[i].0)] == i by {
        assert(t[i].0 == s[i].0);
    }
    assert forall|c: (u8, u64)| #[trigger] ix.contains_key(c) implies ix[c] < t.len() && queue_code(t[ix[c] as int].0) == c by {
        assert(t[ix[c] as int].0 == s[ix[c] as int].0);
    }
}

/// The queues of the kernel, by kind, and where each sits.
pub struct WaitObserver {
    queues: Vec<(QueueType, WaitQueue)>,
    index: QueueIndex,
}

impl WaitObserver {
    spec fn entries(&self) -> Seq<(QueueType, QueueView)> {
        self.queues@.map_values(|e: (QueueType, WaitQueue)| (e.0, e.1.view()))
    }

    pub closed spec fn view(&self) -> Map<QueueType, QueueView> {
        queue_map(self.entries())
    }

    /// No kind has two queues, every queue is in order, and the index says
    /// where each sits.
    pub closed spec fn wf(&self) -> bool {
        &&& kinds_unique(self.entries())
        &&& forall|i: int| 0 <= i < self.entries().len() ==> queue_wf(#[trigger] self.entries()[i].1)
        &&& index_matches(queue_index(self.index), self.entries())
    }

    /// No queues.
    pub fn new() -> (r: Self)
        ensures
            r.wf(),
            r@ == Map::<QueueType, QueueView>::empty(),
    {
        let r = WaitObserver { queues: Vec::new(), index: index_new() };
        assert(r.entries() =~= Seq::<(QueueType, QueueView)>::empty());
        assert(r@ =~= Map::<QueueType, QueueView>::empty());
        r
    }

    /// Where the queue of kind `k` is.
    fn position(&self, k: QueueType) -> (r: Option<usize>)
        requires
            self.wf(),
        ensures
            match r {
                Some(i) => i < self.queues@.len() && i as int == key_index(self.entries(), k),
                None => key_index(self.entries(), k) < 0,
            },
    {
        let ghost s = self.entries();
        let ghost ix = queue_index(self.index);
        proof {
            lemma_key_index(s, k);
        }
        match index_get(&self.index, k.code()) {
            None => {
                proof {
                    if key_index(s, k) >= 0 {
                        let j = key_index(s, k);
                        assert(ix.contains_key(queue_code(s[j].0)));
                    }
                }
                None
            },
            Some(i) => {
                proof {
                    assert(ix.contains_key(queue_code(k)));
                    lemma_queue_code_injective(s[i as int].0, k);
                    assert(s[i as int].0 == k);
                }
                Some(i)
            },
        }
    }

    /// Whether a queue of kind `queue_type` is there.
    pub fn has_queue(&self, queue_type: QueueType) -> (r: bool)
        requires
            self.wf(),
        ensures
            r == self@.contains_key(queue_type),
    {
        self.position(queue_type).is_some()
    }

    /// Adds `queue` as the queue of kind `queue_type`, unless there is one
    /// already: then nothing changes and the call fails.
    pub fn add_queue(&mut self, queue: WaitQueue, queue_type: QueueType) -> (r: Option<()>)
        requires
            old(self).wf(),
            queue_wf(queue.view()),
        ensures
            final(self).wf(),
            old(self)@.contains_key(queue_type) ==> r is None && final(self)@ == old(self)@,
            !old(self)@.contains_key(queue_type) ==> r is Some && final(self)@ == old(self)@.insert(
                queue_type,
                queue.view(),
            ),
    {
        if self.position(queue_type).is_some() {
            return None;
        }
        let ghost s = self.entries();
        let ghost qv = queue.view();
        let ghost ix = queue_index(self.index);
        let at = self.queues.len();
        self.queues.push((queue_type, queue));
        index_insert(&mut self.index, queue_type.code(), at);
        proof {
            let t = self.entries();
            assert(t =~= s.push((queue_type, qv)));
            assert(t.drop_last() =~= s);
            lemma_key_index(s, queue_type);
            let ix2 = ix.insert(queue_code(queue_type), at);
            assert(queue_index(self.index) == ix2);
            assert forall|i: int| 0 <= i < t.len() implies ix2.contains_key(queue_code(#[trigger] t[i].0))
                && ix2[queue_code(t[i].0)] == i by {
                if i < s.len() {
                    assert(t[i] == s[i]);
                    lemma_queue_code_injective(s[i].0, queue_type);
                }
            }
            assert forall|c: (u8, u64)| #[trigger] ix2.contains_key(c) implies ix2[c] < t.len() && queue_code(
                t[ix2[c] as int].0,
            ) == c by {
                if c != queue_code(queue_type) {
                    assert(t[ix[c] as int] == s[ix[c] as int]);
                }
            }
            assert forall|i: int, j: int| 0 <= i < t.len() && 0 <= j < t.len() && i != j implies t[i].0 != t[j].0 by {
                if i < s.len() && j < s.len() {
                    assert(t[i] == s[i] && t[j] == s[j]);
                } else if i < s.len() {
                    assert(t[i] == s[i]);
                } else {
                    assert(t[j] == s[j]);
                }
            }
            assert forall|i: int| 0 <= i < t.len() implies queue_wf(#[trigger] t[i].1) by {
                if i < s.len() {
                    assert(t[i] == s[i]);
                }
            }
            assert(queue_map(t) =~= queue_map(s).insert(queue_type, qv)) by {
                assert forall|k: QueueType| #[trigger] queue_map(t).contains_key(k) == queue_map(s).insert(queue_type, qv).contains_key(k) && (queue_map(t).contains_key(k) ==> queue_map(t)[k] == queue_map(s).insert(queue_type, qv)[k]) by {
                    if k != queue_type {
                        assert(key_index(t, k) == key_index(s, k));
                        lemma_key_index(s, k);
                        if key_index(s, k) >= 0 {
                            assert(t[key_index(s, k)] == s[key_index(s, k)]);
                        }
                    }
                }
            }
        }
        Some(())
    }

    /// Removes the queue of kind `queue_type`, if there is one.
    pub fn remove_queue(&mut self, queue_type: QueueType)
        requires
            old(self).wf(),
        ensures
            final(self).wf(),
            final(self)@ == old(self)@.remove(queue_type),
    {
        let ghost s = self.entries();
        match self.position(queue_type) {
            None => {
                proof {
                    assert(self@ =~= old(self)@.remove(queue_type));
                }
            },
            Some(i) => {
                let ghost ix = queue_index(self.index);
                let ghost n = s.len();
                self.queues.swap_remove(i);
                index_remove(&mut self.index, queue_type.code());
                if i < self.queues.len() {
                    let c = self.queues[i].0.code();
                    index_insert(&mut self.index, c, i);
                }
                proof {
                    let t = self.entries();
                    assert(t =~= s.update(i as int, s.last()).drop_last());
                    lemma_key_index(s, queue_type);
                    assert(s[i as int].0 == queue_type);
                    // each place of `t` holds the queue from place `src(a)` of `s`, never `i`
                    assert forall|a: int| 0 <= a < t.len() implies #[trigger] t[a] == s[if a == i { n - 1 } else { a }]
                        && (if a == i { n - 1 } else { a }) != i by {}
                    assert forall|a: int, b: int| 0 <= a < t.len() && 0 <= b < t.len() && a != b implies t[a].0 != t[b].0 by {
                        assert(t[a] == s[if a == i { n - 1 } else { a }]);
                        assert(t[b] == s[if b == i { n - 1 } else { b }]);
                    }
                    assert forall|a: int| 0 <= a < t.len() implies queue_wf(#[trigger] t[a].1) by {
                        assert(t[a] == s[if a == i { n - 1 } else { a }]);
                    }
                    assert(queue_map(t) =~= queue_map(s).remove(queue_type)) by {
                        assert forall|k: QueueType| #[trigger] queue_map(t).contains_key(k) == queue_map(s).remove(queue_type).contains_key(k) && (queue_map(t).contains_key(k) ==> queue_map(t)[k] == queue_map(s)[k]) by {
                            lemma_key_index(t, k);
                            lemma_key_index(s, k);
                            if key_index(t, k) >= 0 {
                                let a = key_index(t, k);
                                let b = if a == i { n - 1 } else { a };
                                assert(t[a] == s[b]);
                            }
                            if key_index(s, k) >= 0 && k != queue_type {
                                let b = key_index(s, k);
                                let a = if b == n - 1 { i as int } else { b };
                                assert(t[a] == s[b]);
                            }
                        }
                    }
                    let ix2 = queue_index(self.index);
                    assert forall|a: int| 0 <= a < t.len() implies ix2.contains_key(queue_code(#[trigger] t[a].0))
                        && ix2[queue_code(t[a].0)] == a by {
                        let b = if a == i { n - 1 } else { a };
                        assert(t[a] == s[b]);
                        lemma_queue_code_injective(s[b].0, queue_type);
                        lemma_queue_code_injective(s[b].0, s[n - 1].0);
                    }
                    assert forall|c: (u8, u64)| #[trigger] ix2.contains_key(c) implies ix2[c] < t.len() && queue_code(
                        t[ix2[c] as int].0,
                    ) == c by {
                        if i < n - 1 && c == queue_code(s[n - 1].0) {
                            assert(t[i as int] == s[n - 1]);
                        } else {
                            let b = ix[c] as int;
                            assert(t[b] == s[b]);
                        }
                    }
                }
            },
        }
    }

    /// The conditions waited for in the queue of kind `queue_type`, in
    /// order, when it is a generic queue (whose callbacks must be asked
    /// before it is signalled); none otherwise.
    pub fn generic_conditions(&self, queue_type: QueueType) -> (r: Vec<WaitCondition>)
        requires
            self.wf(),
        ensures
            r@ == (match self@.get(queue_type) {
                Some(QueueView::Generic(v)) => v.map_values(|e: (u64, WaitCondition)| e.1),
                _ => Seq::empty(),
            }),
    {
        let ghost s = self.entries();
        match self.position(queue_type) {
            None => Vec::new(),
            Some(i) => {
                proof {
                    assert(s[i as int] == (self.queues@[i as int].0, self.queues@[i as int].1.view()));
                }
                match &self.queues[i].1 {
                    WaitQueue::Generic(q) => q.conditions(),
                    _ => Vec::new(),
                }
            },
        }
    }

    /// Signals the queue of kind `event_type` at time `now`; see
    /// `queue_signalled`. Returns the threads that could not be woken, or
    /// none when there is no such queue.
    pub fn signal(
        &mut self,
        event_type: QueueType,
        now: u64,
        keyboard_ready: bool,
        answers: &Vec<bool>,
        tasks: &mut TaskManager,
    ) -> (r: Option<Vec<ThreadID>>)
        requires
            old(self).wf(),
            old(tasks).wf(),
            old(self)@.contains_key(event_type) ==> answers_fit(old(self)@[event_type], answers@),
        ensures
            final(self).wf(),
            final(tasks).wf(),
            !old(self)@.contains_key(event_type) ==> r is None && final(self)@ == old(self)@ && final(tasks).view()
                == old(tasks).view(),
            old(self)@.contains_key(event_type) ==> ({
                let (q, m, f) = queue_signalled(old(self)@[event_type], old(tasks).view(), now, keyboard_ready, answers@);
                &&& r matches Some(failed) && failed@.map_values(|t: ThreadID| t@) == f
                &&& final(self)@ == old(self)@.insert(event_type, q)
                &&& final(tasks).view() == m
            }),
    {
        let ghost s = self.entries();
        match self.position(event_type) {
            None => None,
            Some(i) => {
                let (k, mut q) = self.queues.remove(i);
                proof {
                    lemma_queue_map_at(s, i as int);
                    assert(s[i as int] == (k, q.view()));
                }
                let failed = q.signal(now, keyboard_ready, answers, tasks);
                let ghost qv = q.view();
                self.queues.insert(i, (k, q));
                proof {
                    lemma_key_index(s, event_type);
                    assert(self.entries() =~= s.update(i as int, (k, qv)));
                    lemma_update_entry(s, i as int, qv);
                    let t = self.entries();
                    assert forall|a: int| 0 <= a < t.len() implies queue_wf(#[trigger] t[a].1) by {
                        if a != i {
                            assert(t[a] == s[a]);
                        }
                    }
                }
                Some(failed)
            },
        }
    }
}

/// A kind of queue, and what to wait for in it.
#[derive(Debug, Clone, Copy, PartialEq, Eq, Structural)]
pub struct QueuTypeCondition {
    pub q_type: QueueType,
    pub cond: WaitCondition,
}

impl QueuTypeCondition {
    /// Waiting in the queue of kind `q_type` for nothing in particular.
    pub fn new(q_type: QueueType) -> (r: Self)
        ensures
            r.q_type == q_type,
            r.cond == WaitCondition::Always,
    {
        QueuTypeCondition { q_type, cond: WaitCondition::Always }
    }

    pub fn with_cond(q_type: QueueType, cond: WaitCondition) -> (r: Self)
        ensures
            r.q_type == q_type,
            r.cond == cond,
    {
        QueuTypeCondition { q_type, cond }
    }
}

/// Filing thread `id` under each of the conditions `qd` in turn, in the
/// queue of its kind where there is one, until a condition is found given
/// (with `answers` the callbacks' answers, one per condition): the queues
/// after, and whether a given condition stopped it.
pub open spec fn enqueue_spec(
    mp: Map<QueueType, QueueView>,
    id: u64,
    qd: Seq<QueuTypeCondition>,
    now: u64,
    keyboard_ready: bool,
    m: ManagerView,
    answers: Seq<bool>,
) -> (Map<QueueType, QueueView>, bool)
    decreases qd.len(),
{
    if qd.len() == 0 {
        (mp, false)
    } else {
        let (mp1, stopped) = enqueue_spec(mp, id, qd.drop_last(), now, keyboard_ready, m, answers);
        let i = qd.len() - 1;
        let c = qd[i];
        if stopped {
            (mp1, true)
        } else if given(c.cond, now, keyboard_ready, m, answers[i]) {
            (mp1, true)
        } else if mp1.contains_key(c.q_type) {
            (mp1.insert(c.q_type, queue_enqueued(mp1[c.q_type], id, c.cond)), false)
        } else {
            (mp1, false)
        }
    }
}

/// Whether any of the conditions `qd` is given.
pub open spec fn any_given_spec(qd: Seq<QueuTypeCondition>, now: u64, keyboard_ready: bool, m: ManagerView, answers: Seq<bool>) -> bool {
    exists|i: int| 0 <= i < qd.len() && given(#[trigger] qd[i].cond, now, keyboard_ready, m, answers[i])
}

/// Whether any of the conditions in `queue_data` is given; `answers` holds
/// the callbacks' answers, one per condition.
pub fn any_given(
    queue_data: &Vec<QueuTypeCondition>,
    now: u64,
    keyboard_ready: bool,
    answers: &Vec<bool>,
    tasks: &TaskManager,
) -> (r: bool)
    requires
        answers@.len() == queue_data@.len(),
        tasks.wf(),
    ensures
        r == any_given_spec(queue_data@, now, keyboard_ready, tasks.view(), answers@),
{
    let mut k: usize = 0;
    while k < queue_data.len()
        invariant
            answers@.len() == queue_data@.len(),
            tasks.wf(),
            k <= queue_data@.len(),
            forall|i: int| 0 <= i < k ==> !given(#[trigger] queue_data@[i].cond, now, keyboard_ready, tasks.view(), answers@[i]),
        decreases queue_data@.len() - k,
    {
        if queue_data[k].cond.is_given(now, keyboard_ready, tasks, answers[k]) {
            return true;
        }
        k = k + 1;
    }
    false
}

impl WaitObserver {
    /// Queues thread `id` at position `i`; see `queue_enqueued`.
    fn enqueue_at(&mut self, i: usize, id: ThreadID, cond: WaitCondition)
        requires
            old(self).wf(),
            i < old(self).queues@.len(),
        ensures
            final(self).wf(),
            final(self)@ == old(self)@.insert(
                old(self).entries()[i as int].0,
                queue_enqueued(old(self).entries()[i as int].1, id@, cond),
            ),
    {
        let ghost s = self.entries();
        let (k, mut q) = self.queues.remove(i);
        proof {
            assert(s[i as int] == (k, q.view()));
            assert(queue_wf(s[i as int].1));
        }
        q.enqueue(id, cond);
        let ghost qv = q.view();
        self.queues.insert(i, (k, q));
        proof {
            assert(self.entries() =~= s.update(i as int, (k, qv)));
            lemma_update_entry(s, i as int, qv);
            let t = self.entries();
            assert forall|a: int| 0 <= a < t.len() implies queue_wf(#[trigger] t[a].1) by {
                if a != i {
                    assert(t[a] == s[a]);
                }
            }
        }
    }

    /// Files thread `id` under each of `queue_data` in turn, in the queue of
    /// its kind where there is one, stopping at the first condition that is
    /// already given; `answers` holds the callbacks' answers, one per
    /// condition. Returns whether a given condition stopped it, in which
    /// case the thread need not block. See `enqueue_spec`.
    pub fn enqueue(
        &mut self,
        id: ThreadID,
        queue_data: &Vec<QueuTypeCondition>,
        now: u64,
        keyboard_ready: bool,
        answers: &Vec<bool>,
        tasks: &TaskManager,
    ) -> (r: bool)
        requires
            old(self).wf(),
            answers@.len() == queue_data@.len(),
            tasks.wf(),
        ensures
            final(self).wf(),
            (final(self)@, r) == enqueue_spec(old(self)@, id@, queue_data@, now, keyboard_ready, tasks.view(), answers@),
    {
        let ghost qd = queue_data@;
        let ghost mp0 = self@;
        let mut k: usize = 0;
        proof {
            assert(qd.take(0) =~= Seq::<QueuTypeCondition>::empty());
        }
        while k < queue_data.len()
            invariant
                qd == queue_data@,
                mp0 == old(self)@,
                answers@.len() == qd.len(),
                tasks.wf(),
                k <= qd.len(),
                self.wf(),
                (self@, false) == enqueue_spec(mp0, id@, qd.take(k as int), now, keyboard_ready, tasks.view(), answers@),
            decreases qd.len() - k,
        {
            let c = queue_data[k];
            proof {
                assert(qd.take(k + 1).drop_last() =~= qd.take(k as int));
                assert(qd.take(k + 1)[k as int] == c);
            }
            if c.cond.is_given(now, keyboard_ready, tasks, answers[k]) {
                proof {
                    lemma_enqueue_stops(mp0, id@, qd, now, keyboard_ready, tasks.view(), answers@, k + 1);
                }
                return true;
            }
            match self.position(c.q_type) {
                Some(i) => {
                    proof {
                        lemma_key_index(self.entries(), c.q_type);
                    }
                    self.enqueue_at(i, id, c.cond);
                },
                None => {},
            }
            k = k + 1;
        }
        proof {
            assert(qd.take(k as int) =~= qd);
        }
        false
    }
}

/// Once a given condition stops the filing, the rest is left alone.
proof fn lemma_enqueue_stops(
    mp: Map<QueueType, QueueView>,
    id: u64,
    qd: Seq<QueuTypeCondition>,
    now: u64,
    keyboard_ready: bool,
    m: ManagerView,
    answers: Seq<bool>,
    k: int,
)
    requires
        0 < k <= qd.len(),
        enqueue_spec(mp, id, qd.take(k), now, keyboard_ready, m, answers).1,
    ensures
        enqueue_spec(mp, id, qd, now, keyboard_ready, m, answers) == enqueue_spec(mp, id, qd.take(k), now, keyboard_ready, m, answers),
    decreases qd.len() - k,
{
    if k == qd.len() {
        assert(qd.take(k) =~= qd);
    } else {
        assert(qd.take(k + 1).drop_last() =~= qd.take(k));
        lemma_enqueue_stops(mp, id, qd, now, keyboard_ready, m, answers, k + 1);
    }
}

/// Adding a queue of a kind that had none and removing it again leaves the
/// queues as they were.
pub proof fn law_add_then_remove_queue(mp: Map<QueueType, QueueView>, k: QueueType, q: QueueView)
    requires
        !mp.contains_key(k),
    ensures
        mp.insert(k, q).remove(k) == mp,
{
    assert(mp.insert(k, q).remove(k) =~= mp);
}


/// Where blocking a thread that waits on its conditions stands, after it
/// was filed under them: about to check them (after this many tries at
/// blocking), about to block it, about to check them again once blocked,
/// or done.
#[derive(Debug, Clone, Copy, PartialEq, Eq, Structural)]
pub enum BlockState {
    Check(usize),
    Block(usize),
    Recheck,
    Done,
}

/// What the caller does besides moving on: nothing, wake the thread again,
/// or yield before the next try.
#[derive(Debug, Clone, Copy, PartialEq, Eq, Structural)]
pub enum BlockAction {
    Nothing,
    Wake,
    Yield,
}

/// One step of blocking a waiting thread, from what the caller saw: at a
/// check, whether a condition is given (then waiting is over); at a block,
/// whether the thread could be blocked (if not, the caller yields and tries
/// again, at most `max_tries` times in all); at the check after blocking,
/// whether a condition turned out given meanwhile (then the thread is woken
/// again).
pub open spec fn block_step_spec(state: BlockState, seen: bool, max_tries: usize) -> (BlockState, BlockAction) {
    match state {
        BlockState::Check(t) => if seen {
            (BlockState::Done, BlockAction::Nothing)
        } else {
            (BlockState::Block(t), BlockAction::Nothing)
        },
        BlockState::Block(t) => if seen {
            (BlockState::Recheck, BlockAction::Nothing)
        } else if t + 1 < max_tries {
            (BlockState::Check((t + 1) as usize), BlockAction::Yield)
        } else {
            (BlockState::Done, BlockAction::Yield)
        },
        BlockState::Recheck => if seen {
            (BlockState::Done, BlockAction::Wake)
        } else {
            (BlockState::Done, BlockAction::Nothing)
        },
        BlockState::Done => (BlockState::Done, BlockAction::Nothing),
    }
}

/// One step of blocking a waiting thread; see `block_step_spec`.
pub fn block_step(state: BlockState, seen: bool, max_tries: usize) -> (r: (BlockState, BlockAction))
    requires
        state matches BlockState::Block(t) ==> t < max_tries,
    ensures
        r == block_step_spec(state, seen, max_tries),
{
    match state {
        BlockState::Check(t) => if seen {
            (BlockState::Done, BlockAction::Nothing)
        } else {
            (BlockState::Block(t), BlockAction::Nothing)
        },
        BlockState::Block(t) => if seen {
            (BlockState::Recheck, BlockAction::Nothing)
        } else if t + 1 < max_tries {
            (BlockState::Check(t + 1), BlockAction::Yield)
        } else {
            (BlockState::Done, BlockAction::Yield)
        },
        BlockState::Recheck => if seen {
            (BlockState::Done, BlockAction::Wake)
        } else {
            (BlockState::Done, BlockAction::Nothing)
        },
        BlockState::Done => (BlockState::Done, BlockAction::Nothing),
    }
}

/// How many steps blocking can still take at most.
pub open spec fn block_measure(state: BlockState, max_tries: usize) -> int {
    match state {
        BlockState::Check(t) => 3 * (max_tries - t) + 1,
        BlockState::Block(t) => 3 * (max_tries - t),
        BlockState::Recheck => 1,
        BlockState::Done => 0,
    }
}

/// Law: blocking a waiting thread ends. Every step from a state other than
/// done, whatever was seen, lowers the number of steps left, which never
/// goes below zero; so, started at a check within the tries, it is done
/// after at most `3 * max_tries + 1` steps. A thread is woken again only
/// after it was blocked, and a yield comes only after a failed block.
pub proof fn law_blocking_ends(state: BlockState, seen: bool, max_tries: usize)
    requires
        state matches BlockState::Check(t) ==> t < max_tries,
        state matches BlockState::Block(t) ==> t < max_tries,
    ensures
        state != BlockState::Done ==> 0 <= block_measure(block_step_spec(state, seen, max_tries).0, max_tries)
            < block_measure(state, max_tries),
        block_step_spec(state, seen, max_tries).0 matches BlockState::Check(t) ==> t < max_tries,
        block_step_spec(state, seen, max_tries).0 matches BlockState::Block(t) ==> t < max_tries,
        block_step_spec(state, seen, max_tries).1 == BlockAction::Wake ==> state == BlockState::Recheck,
        block_step_spec(state, seen, max_tries).1 == BlockAction::Yield ==> state is Block && !seen,
{
}

} // verus!
