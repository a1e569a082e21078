//! Process groups and processes: which threads make up which process, and
//! which processes which group; the state of each process; pruning what
//! has exited, and killing a whole process.
//!
//! Groups are kept by group number, members by process number and threads
//! by thread number, each in ascending order, as ordered maps keep them.
use vstd::prelude::*;

use crate::sched::{ManagerView, TaskManager, kill_spec, state_of};
use crate::task::{ProcessGroupID, ProcessID, TaskState, ThreadID, lemma_thread_id_eq};

verus! {

broadcast use lemma_thread_id_eq;

/// A process in the tree, as plain values: its number, its leading thread,
/// and its threads.
pub struct ProcessView {
    pub pid: u64,
    pub leader: u64,
    pub threads: Seq<u64>,
}

/// A group, as plain values: its number, its leading process, and its
/// member processes.
pub struct GroupView {
    pub pgid: u64,
    pub leader: Option<u64>,
    pub members: Seq<ProcessView>,
}

/// What is known of a process: its number, its group, and its state.
#[derive(Clone, Copy, Debug, PartialEq, Eq, Structural)]
pub struct ProcessInfo {
    pub pid: u64,
    pub pgid: u64,
    pub state: TaskState,
}

/// What exited.
#[derive(Clone, Copy, Debug, PartialEq, Eq, Structural)]
pub enum Exited {
    Thread(ThreadID),
    Process(ProcessID),
}

/// What exited, as plain values.
pub enum ExitedView {
    Thread(u64),
    Process(u64),
}

pub open spec fn exited_view(e: Exited) -> ExitedView {
    match e {
        Exited::Thread(t) => ExitedView::Thread(t@),
        Exited::Process(p) => ExitedView::Process(p.0),
    }
}

struct ProcessNode {
    pid: u64,
    leader: ThreadID,
    threads: Vec<ThreadID>,
}

impl ProcessNode {
    spec fn view(&self) -> ProcessView {
        ProcessView { pid: self.pid, leader: self.leader@, threads: self.threads@.map_values(|t: ThreadID| t@) }
    }
}

struct GroupNode {
    pgid: u64,
    leader: Option<u64>,
    members: Vec<ProcessNode>,
}

impl GroupNode {
    spec fn view(&self) -> GroupView {
        GroupView {
            pgid: self.pgid,
            leader: self.leader,
            members: self.members@.map_values(|p: ProcessNode| p.view()),
        }
    }
}

/// The process groups, and the processes known by number.
pub struct ProcessTree {
    groups: Vec<GroupNode>,
    processes: Vec<ProcessInfo>,
    next_pid: u64,
    next_pgrid: u64,
}

/// Keys in strictly ascending order.
pub open spec fn ascending(keys: Seq<u64>) -> bool {
    forall|i: int, j: int| 0 <= i < j < keys.len() ==> keys[i] < keys[j]
}

pub open spec fn group_keys(gs: Seq<GroupView>) -> Seq<u64> {
    gs.map_values(|g: GroupView| g.pgid)
}

pub open spec fn member_keys(ms: Seq<ProcessView>) -> Seq<u64> {
    ms.map_values(|p: ProcessView| p.pid)
}

/// The tree is ordered at every level.
pub open spec fn tree_wf(gs: Seq<GroupView>) -> bool {
    &&& ascending(group_keys(gs))
    &&& forall|i: int| 0 <= i < gs.len() ==> ascending(member_keys(#[trigger] gs[i].members))
    &&& forall|i: int, j: int|
        0 <= i < gs.len() && 0 <= j < gs[i].members.len() ==> ascending(#[trigger] gs[i].members[j].threads)
}

/// No process is known twice.
pub open spec fn pids_unique(ps: Seq<ProcessInfo>) -> bool {
    forall|i: int, j: int| 0 <= i < ps.len() && 0 <= j < ps.len() && i != j ==> ps[i].pid != ps[j].pid
}

/// How many of the leading keys are below `k`.
pub open spec fn count_below(keys: Seq<u64>, k: u64) -> nat
    decreases keys.len(),
{
    if keys.len() == 0 || keys[0] >= k {
        0
    } else {
        1 + count_below(keys.drop_first(), k)
    }
}

/// Position of the process `pid` in the table, or -1.
pub open spec fn info_index(ps: Seq<ProcessInfo>, pid: u64) -> int
    decreases ps.len(),
{
    if ps.len() == 0 {
        -1
    } else if ps.last().pid == pid {
        ps.len() - 1
    } else {
        info_index(ps.drop_last(), pid)
    }
}

/// A process made of its one leading thread.
pub open spec fn single(pid: u64, tid: u64) -> ProcessView {
    ProcessView { pid, leader: tid, threads: seq![tid] }
}

/// The members with `p` filed by its number: in place of a member with
/// that number, else in order.
pub open spec fn upsert_member(ms: Seq<ProcessView>, p: ProcessView) -> Seq<ProcessView> {
    let i = count_below(member_keys(ms), p.pid) as int;
    if i < ms.len() && ms[i].pid == p.pid {
        ms.update(i, p)
    } else {
        ms.insert(i, p)
    }
}

/// Adding thread `tid` as the leader of process `pid` in group `pgid`: the
/// process is filed (anew) in its group, which is made, with the process
/// as its leader, when missing.
pub open spec fn add_spec(gs: Seq<GroupView>, pid: u64, tid: u64, pgid: u64) -> Seq<GroupView> {
    let i = count_below(group_keys(gs), pgid) as int;
    if i < gs.len() && gs[i].pgid == pgid {
        gs.update(
            i,
            GroupView { pgid, leader: gs[i].leader, members: upsert_member(gs[i].members, single(pid, tid)) },
        )
    } else {
        gs.insert(i, GroupView { pgid, leader: Some(pid), members: seq![single(pid, tid)] })
    }
}

/// The table with `info` filed by its process number: in place, else last.
pub open spec fn upsert_info(ps: Seq<ProcessInfo>, info: ProcessInfo) -> Seq<ProcessInfo> {
    let i = info_index(ps, info.pid);
    if i < 0 {
        ps.push(info)
    } else {
        ps.update(i, info)
    }
}

/// Whether thread `t` is a zombie in the thread table.
pub open spec fn zombie(m: ManagerView, t: u64) -> bool {
    state_of(m.tasks, t) == Some(TaskState::Zombie)
}

/// The threads of `ts` that are zombies (`dead`) or not, in order.
pub open spec fn pick(m: ManagerView, ts: Seq<u64>, dead: bool) -> Seq<u64>
    decreases ts.len(),
{
    if ts.len() == 0 {
        Seq::empty()
    } else {
        let r = pick(m, ts.drop_last(), dead);
        if zombie(m, ts.last()) == dead {
            r.push(ts.last())
        } else {
            r
        }
    }
}

/// A process goes when no thread of it is left, or its leader died.
pub open spec fn process_gone(m: ManagerView, p: ProcessView) -> bool {
    pick(m, p.threads, false).len() == 0 || pick(m, p.threads, true).contains(p.leader)
}

/// Cleaning the members `ms`: the processes kept (with their living
/// threads), the dead threads in order, and the processes that go.
pub open spec fn clean_members(m: ManagerView, ms: Seq<ProcessView>) -> (Seq<ProcessView>, Seq<u64>, Seq<u64>)
    decreases ms.len(),
{
    if ms.len() == 0 {
        (Seq::empty(), Seq::empty(), Seq::empty())
    } else {
        let (k, te, gp) = clean_members(m, ms.drop_last());
        let p = ms.last();
        let te2 = te + pick(m, p.threads, true);
        if process_gone(m, p) {
            (k, te2, gp.push(p.pid))
        } else {
            (k.push(ProcessView { pid: p.pid, leader: p.leader, threads: pick(m, p.threads, false) }), te2, gp)
        }
    }
}

/// What exits from a group: its dead threads in order, then the processes
/// that go.
pub open spec fn group_exits(te: Seq<u64>, gp: Seq<u64>) -> Seq<ExitedView> {
    te.map_values(|t: u64| ExitedView::Thread(t)) + gp.map_values(|p: u64| ExitedView::Process(p))
}

/// Cleaning the groups `gs`: the groups kept (those with members left),
/// what exited in order, and the processes that went.
pub open spec fn clean_groups(m: ManagerView, gs: Seq<GroupView>) -> (Seq<GroupView>, Seq<ExitedView>, Seq<u64>)
    decreases gs.len(),
{
    if gs.len() == 0 {
        (Seq::empty(), Seq::empty(), Seq::empty())
    } else {
        let (k, ev, gone) = clean_groups(m, gs.drop_last());
        let g = gs.last();
        let (mk, te, gp) = clean_members(m, g.members);
        let ev2 = ev + group_exits(te, gp);
        if mk.len() == 0 {
            (k, ev2, gone + gp)
        } else {
            (k.push(GroupView { pgid: g.pgid, leader: g.leader, members: mk }), ev2, gone + gp)
        }
    }
}

/// The table with every process in `gone` a zombie.
pub open spec fn zombify(ps: Seq<ProcessInfo>, gone: Seq<u64>) -> Seq<ProcessInfo> {
    ps.map_values(
        |i: ProcessInfo|
            if gone.contains(i.pid) {
                ProcessInfo { pid: i.pid, pgid: i.pgid, state: TaskState::Zombie }
            } else {
                i
            },
    )
}

/// Killing the threads `ts` in order, each with signal 0, stopping at the
/// first that cannot be killed: the thread table after, and whether all
/// were killed.
pub open spec fn kill_all(m: ManagerView, ts: Seq<u64>) -> (ManagerView, bool)
    decreases ts.len(),
{
    if ts.len() == 0 {
        (m, true)
    } else {
        let (m1, ok) = kill_all(m, ts.drop_last());
        if !ok {
            (m1, false)
        } else {
            let (m2, r) = kill_spec(m1, ts.last(), 0);
            (m2, r is Some)
        }
    }
}

/// Killing process `pid`: it must be known, its group must be in the tree
/// and hold it; then each of its threads is killed in order, and once all
/// are, the process becomes a zombie. Returns the process table, the thread
/// table, and whether it succeeded.
pub open spec fn kill_process_spec(gs: Seq<GroupView>, ps: Seq<ProcessInfo>, m: ManagerView, pid: u64) -> (
    Seq<ProcessInfo>,
    ManagerView,
    Option<()>,
) {
    let i = info_index(ps, pid);
    if i < 0 {
        (ps, m, None)
    } else {
        let g = count_below(group_keys(gs), ps[i].pgid) as int;
        if !(g < gs.len() && gs[g].pgid == ps[i].pgid) {
            (ps, m, None)
        } else {
            let ms = gs[g].members;
            let j = count_below(member_keys(ms), pid) as int;
            if !(j < ms.len() && ms[j].pid == pid) {
                (ps, m, None)
            } else {
                let (m2, ok) = kill_all(m, ms[j].threads);
                if ok {
                    (ps.update(i, ProcessInfo { pid, pgid: ps[i].pgid, state: TaskState::Zombie }), m2, Some(()))
                } else {
                    (ps, m2, None)
                }
            }
        }
    }
}

/// The keys counted by `count_below` are the ones below `k`.
pub proof fn lemma_count_below(keys: Seq<u64>, k: u64)
    requires
        ascending(keys),
    ensures
        count_below(keys, k) <= keys.len(),
        forall|i: int| 0 <= i < count_below(keys, k) ==> keys[i] < k,
        count_below(keys, k) < keys.len() ==> keys[count_below(keys, k) as int] >= k,
        forall|i: int| count_below(keys, k) <= i < keys.len() ==> keys[i] >= k,
    decreases keys.len(),
{
    if keys.len() > 0 && keys[0] < k {
        let rest = keys.drop_first();
        assert(ascending(rest)) by {
            assert forall|i: int, j: int| 0 <= i < j < rest.len() implies rest[i] < rest[j] by {
                assert(rest[i] == keys[i + 1] && rest[j] == keys[j + 1]);
            }
        }
        lemma_count_below(rest, k);
        assert forall|i: int| 0 <= i < count_below(keys, k) implies keys[i] < k by {
            if i > 0 {
                assert(keys[i] == rest[i - 1]);
            }
        }
        assert forall|i: int| count_below(keys, k) <= i < keys.len() implies keys[i] >= k by {
            assert(keys[i] == rest[i - 1]);
        }
    } else if keys.len() > 0 {
        assert forall|i: int| 0 <= i < keys.len() implies keys[i] >= k by {
            if i > 0 {
                assert(keys[0] < keys[i]);
            }
        }
    }
}

/// Inserting a key at the place `count_below` gives, or putting it in
/// place of an equal key there, keeps the keys ascending.
pub proof fn lemma_insert_ascending(keys: Seq<u64>, k: u64)
    requires
        ascending(keys),
    ensures
        ({
            let i = count_below(keys, k) as int;
            &&& i < keys.len() && keys[i] == k ==> ascending(keys.update(i, k))
            &&& !(i < keys.len() && keys[i] == k) ==> ascending(keys.insert(i, k))
        }),
{
    lemma_count_below(keys, k);
    let i = count_below(keys, k) as int;
    if i < keys.len() && keys[i] == k {
        assert(keys.update(i, k) =~= keys);
    } else {
        let r = keys.insert(i, k);
        assert forall|a: int, b: int| 0 <= a < b < r.len() implies r[a] < r[b] by {
            if b < i {
                assert(r[a] == keys[a] && r[b] == keys[b]);
            } else if b == i {
                assert(r[a] == keys[a]);
            } else if a < i {
                assert(r[a] == keys[a] && r[b] == keys[b - 1]);
            } else if a == i {
                assert(r[b] == keys[b - 1]);
                assert(keys[i] >= k);
                if b - 1 > i {
                    assert(keys[i] < keys[b - 1]);
                }
            } else {
                assert(r[a] == keys[a - 1] && r[b] == keys[b - 1]);
            }
        }
    }
}

pub proof fn lemma_info_index(ps: Seq<ProcessInfo>, pid: u64)
    ensures
        -1 <= info_index(ps, pid) < ps.len(),
        info_index(ps, pid) >= 0 ==> ps[info_index(ps, pid)].pid == pid,
        info_index(ps, pid) < 0 ==> forall|i: int| 0 <= i < ps.len() ==> #[trigger] ps[i].pid != pid,
        pids_unique(ps) ==> forall|i: int| 0 <= i < ps.len() && #[trigger] ps[i].pid == pid ==> i == info_index(ps, pid),
    decreases ps.len(),
{
    if ps.len() > 0 && ps.last().pid != pid {
        lemma_info_index(ps.drop_last(), pid);
        assert forall|i: int| 0 <= i < ps.len() - 1 implies #[trigger] ps[i] == ps.drop_last()[i] by {}
        if pids_unique(ps) {
            assert(pids_unique(ps.drop_last())) by {
                assert forall|i: int, j: int| 0 <= i < ps.len() - 1 && 0 <= j < ps.len() - 1 && i != j implies ps.drop_last()[i].pid != ps.drop_last()[j].pid by {
                    assert(ps.drop_last()[i] == ps[i] && ps.drop_last()[j] == ps[j]);
                }
            }
        }
    }
}

/// Picking threads keeps their order: what is picked is ascending when the
/// threads were, and comes from them.
pub proof fn lemma_pick(m: ManagerView, ts: Seq<u64>, dead: bool)
    ensures
        forall|i: int| 0 <= i < pick(m, ts, dead).len() ==> ts.contains(#[trigger] pick(m, ts, dead)[i]),
        ascending(ts) ==> ascending(pick(m, ts, dead)),
        pick(m, ts, dead).len() <= ts.len(),
    decreases ts.len(),
{
    if ts.len() > 0 {
        let r = pick(m, ts.drop_last(), dead);
        lemma_pick(m, ts.drop_last(), dead);
        assert forall|i: int| 0 <= i < pick(m, ts, dead).len() implies ts.contains(#[trigger] pick(m, ts, dead)[i]) by {
            if i < r.len() {
                let x = r[i];
                assert(ts.drop_last().contains(x));
                let j = choose|j: int| 0 <= j < ts.drop_last().len() && ts.drop_last()[j] == x;
                assert(ts[j] == x);
            } else {
                assert(ts[ts.len() - 1] == ts.last());
            }
        }
        if ascending(ts) {
            assert(ascending(ts.drop_last())) by {
                assert forall|a: int, b: int| 0 <= a < b < ts.drop_last().len() implies ts.drop_last()[a] < ts.drop_last()[b] by {
                    assert(ts.drop_last()[a] == ts[a] && ts.drop_last()[b] == ts[b]);
                }
            }
            if zombie(m, ts.last()) == dead {
                let p = r.push(ts.last());
                assert forall|a: int, b: int| 0 <= a < b < p.len() implies p[a] < p[b] by {
                    if b == r.len() {
                        let x = r[a];
                        assert(ts.drop_last().contains(x));
                        let j = choose|j: int| 0 <= j < ts.drop_last().len() && ts.drop_last()[j] == x;
                        assert(ts[j] == x);
                        assert(ts[j] < ts[ts.len() - 1]);
                    }
                }
            }
        }
    }
}

/// Cleaning members keeps their order, and each kept process comes from a
/// member with the same number, its threads picked from that member's.
pub proof fn lemma_clean_members(m: ManagerView, ms: Seq<ProcessView>)
    ensures
        forall|i: int| #![trigger clean_members(m, ms).0[i]] 0 <= i < clean_members(m, ms).0.len() ==> exists|j: int|
            0 <= j < ms.len() && clean_members(m, ms).0[i] == (ProcessView {
                pid: ms[j].pid,
                leader: ms[j].leader,
                threads: pick(m, ms[j].threads, false),
            }),
        ascending(member_keys(ms)) ==> ascending(member_keys(clean_members(m, ms).0)),
    decreases ms.len(),
{
    if ms.len() > 0 {
        let (k, te, gp) = clean_members(m, ms.drop_last());
        lemma_clean_members(m, ms.drop_last());
        let out = clean_members(m, ms).0;
        assert forall|i: int| #![trigger out[i]] 0 <= i < out.len() implies exists|j: int|
            0 <= j < ms.len() && out[i] == (ProcessView {
                pid: ms[j].pid,
                leader: ms[j].leader,
                threads: pick(m, ms[j].threads, false),
            }) by {
            if i < k.len() {
                let j = choose|j: int| 0 <= j < ms.drop_last().len() && k[i] == (ProcessView {
                    pid: ms.drop_last()[j].pid,
                    leader: ms.drop_last()[j].leader,
                    threads: pick(m, ms.drop_last()[j].threads, false),
                });
                assert(ms.drop_last()[j] == ms[j]);
            } else {
                assert(out[i] == (ProcessView {
                    pid: ms[ms.len() - 1].pid,
                    leader: ms[ms.len() - 1].leader,
                    threads: pick(m, ms[ms.len() - 1].threads, false),
                }));
            }
        }
        if ascending(member_keys(ms)) {
            assert(member_keys(ms.drop_last()) =~= member_keys(ms).drop_last());
            assert(ascending(member_keys(ms.drop_last()))) by {
                let ks = member_keys(ms);
                assert forall|a: int, b: int| 0 <= a < b < ks.drop_last().len() implies ks.drop_last()[a] < ks.drop_last()[b] by {
                    assert(ks.drop_last()[a] == ks[a] && ks.drop_last()[b] == ks[b]);
                }
            }
            let ko = member_keys(out);
            assert forall|a: int, b: int| 0 <= a < b < ko.len() implies ko[a] < ko[b] by {
                if b < k.len() {
                    assert(ko[a] == member_keys(k)[a] && ko[b] == member_keys(k)[b]);
                } else {
                    let ja = choose|j: int| 0 <= j < ms.drop_last().len() && k[a] == (ProcessView {
                        pid: ms.drop_last()[j].pid,
                        leader: ms.drop_last()[j].leader,
                        threads: pick(m, ms.drop_last()[j].threads, false),
                    });
                    assert(ko[a] == ms[ja].pid);
                    assert(ko[b] == ms[ms.len() - 1].pid);
                    assert(member_keys(ms)[ja] < member_keys(ms)[ms.len() - 1]);
                }
            }
        }
    }
}

/// Cleaning groups keeps their order, and each kept group comes from a
/// group with the same number and leader, its members cleaned.
pub proof fn lemma_clean_groups(m: ManagerView, gs: Seq<GroupView>)
    ensures
        forall|i: int| #![trigger clean_groups(m, gs).0[i]] 0 <= i < clean_groups(m, gs).0.len() ==> exists|j: int|
            0 <= j < gs.len() && clean_groups(m, gs).0[i] == (GroupView {
                pgid: gs[j].pgid,
                leader: gs[j].leader,
                members: clean_members(m, gs[j].members).0,
            }),
        ascending(group_keys(gs)) ==> ascending(group_keys(clean_groups(m, gs).0)),
    decreases gs.len(),
{
    if gs.len() > 0 {
        let (k, ev, gone) = clean_groups(m, gs.drop_last());
        lemma_clean_groups(m, gs.drop_last());
        let out = clean_groups(m, gs).0;
        assert forall|i: int| #![trigger out[i]] 0 <= i < out.len() implies exists|j: int|
            0 <= j < gs.len() && out[i] == (GroupView {
                pgid: gs[j].pgid,
                leader: gs[j].leader,
                members: clean_members(m, gs[j].members).0,
            }) by {
            if i < k.len() {
                let j = choose|j: int| 0 <= j < gs.drop_last().len() && k[i] == (GroupView {
                    pgid: gs.drop_last()[j].pgid,
                    leader: gs.drop_last()[j].leader,
                    members: clean_members(m, gs.drop_last()[j].members).0,
                });
                assert(gs.drop_last()[j] == gs[j]);
            } else {
                assert(out[i] == (GroupView {
                    pgid: gs[gs.len() - 1].pgid,
                    leader: gs[gs.len() - 1].leader,
                    members: clean_members(m, gs[gs.len() - 1].members).0,
                }));
            }
        }
        if ascending(group_keys(gs)) {
            assert(group_keys(gs.drop_last()) =~= group_keys(gs).drop_last());
            assert(ascending(group_keys(gs.drop_last()))) by {
                let ks = group_keys(gs);
                assert forall|a: int, b: int| 0 <= a < b < ks.drop_last().len() implies ks.drop_last()[a] < ks.drop_last()[b] by {
                    assert(ks.drop_last()[a] == ks[a] && ks.drop_last()[b] == ks[b]);
                }
            }
            let ko = group_keys(out);
            assert forall|a: int, b: int| 0 <= a < b < ko.len() implies ko[a] < ko[b] by {
                if b < k.len() {
                    assert(ko[a] == group_keys(k)[a] && ko[b] == group_keys(k)[b]);
                } else {
                    let ja = choose|j: int| 0 <= j < gs.drop_last().len() && k[a] == (GroupView {
                        pgid: gs.drop_last()[j].pgid,
                        leader: gs.drop_last()[j].leader,
                        members: clean_members(m, gs.drop_last()[j].members).0,
                    });
                    assert(ko[a] == gs[ja].pgid);
                    assert(group_keys(gs)[ja] < group_keys(gs)[gs.len() - 1]);
                }
            }
        }
    }
}

/// Cleaning keeps the tree ordered.
pub proof fn lemma_clean_wf(m: ManagerView, gs: Seq<GroupView>)
    requires
        tree_wf(gs),
    ensures
        tree_wf(clean_groups(m, gs).0),
{
    let out = clean_groups(m, gs).0;
    lemma_clean_groups(m, gs);
    assert forall|i: int| 0 <= i < out.len() implies ascending(member_keys(#[trigger] out[i].members)) by {
        let j = choose|j: int| 0 <= j < gs.len() && out[i] == (GroupView {
            pgid: gs[j].pgid,
            leader: gs[j].leader,
            members: clean_members(m, gs[j].members).0,
        });
        lemma_clean_members(m, gs[j].members);
    }
    assert forall|i: int, a: int| 0 <= i < out.len() && 0 <= a < out[i].members.len() implies ascending(#[trigger] out[i].members[a].threads) by {
        let j = choose|j: int| 0 <= j < gs.len() && out[i] == (GroupView {
            pgid: gs[j].pgid,
            leader: gs[j].leader,
            members: clean_members(m, gs[j].members).0,
        });
        let ms = gs[j].members;
        lemma_clean_members(m, ms);
        let b = choose|b: int| 0 <= b < ms.len() && clean_members(m, ms).0[a] == (ProcessView {
            pid: ms[b].pid,
            leader: ms[b].leader,
            threads: pick(m, ms[b].threads, false),
        });
        lemma_pick(m, ms[b].threads, false);
        assert(ascending(gs[j].members[b].threads));
    }
}

/// The threads picked as living are not zombies.
proof fn lemma_pick_live(m: ManagerView, ts: Seq<u64>)
    ensures
        forall|i: int| 0 <= i < pick(m, ts, false).len() ==> !zombie(m, #[trigger] pick(m, ts, false)[i]),
    decreases ts.len(),
{
    if ts.len() > 0 {
        lemma_pick_live(m, ts.drop_last());
        let r = pick(m, ts.drop_last(), false);
        let p = pick(m, ts, false);
        assert forall|i: int| 0 <= i < p.len() implies !zombie(m, #[trigger] p[i]) by {
            if i < r.len() {
                assert(p[i] == r[i]);
            }
        }
    }
}

/// The members kept by a cleanup hold no zombie thread.
proof fn lemma_members_live(m: ManagerView, ms: Seq<ProcessView>)
    ensures
        forall|j: int, k: int|
            0 <= j < clean_members(m, ms).0.len() && 0 <= k < clean_members(m, ms).0[j].threads.len() ==> !zombie(
                m,
                #[trigger] clean_members(m, ms).0[j].threads[k],
            ),
    decreases ms.len(),
{
    if ms.len() > 0 {
        lemma_members_live(m, ms.drop_last());
        lemma_pick_live(m, ms.last().threads);
        let r = clean_members(m, ms.drop_last()).0;
        let c = clean_members(m, ms).0;
        assert forall|j: int, k: int| 0 <= j < c.len() && 0 <= k < c[j].threads.len() implies !zombie(
            m,
            #[trigger] c[j].threads[k],
        ) by {
            if j < r.len() {
                assert(c[j] == r[j]);
            } else {
                assert(c[j].threads == pick(m, ms.last().threads, false));
            }
        }
    }
}

/// After a cleanup, no thread left in the tree is a zombie in the thread
/// table that the cleanup read.
pub proof fn law_cleanup_leaves_no_zombie(m: ManagerView, gs: Seq<GroupView>)
    ensures
        forall|i: int, j: int, k: int|
            0 <= i < clean_groups(m, gs).0.len() && 0 <= j < clean_groups(m, gs).0[i].members.len() && 0 <= k
                < clean_groups(m, gs).0[i].members[j].threads.len() ==> !zombie(
                m,
                #[trigger] clean_groups(m, gs).0[i].members[j].threads[k],
            ),
    decreases gs.len(),
{
    if gs.len() > 0 {
        law_cleanup_leaves_no_zombie(m, gs.drop_last());
        lemma_members_live(m, gs.last().members);
        let r = clean_groups(m, gs.drop_last()).0;
        let c = clean_groups(m, gs).0;
        let mk = clean_members(m, gs.last().members).0;
        assert forall|i: int, j: int, k: int|
            0 <= i < c.len() && 0 <= j < c[i].members.len() && 0 <= k < c[i].members[j].threads.len() implies !zombie(
            m,
            #[trigger] c[i].members[j].threads[k],
        ) by {
            if i < r.len() {
                assert(c[i] == r[i]);
                assert(!zombie(m, r[i].members[j].threads[k]));
            } else {
                assert(c[i].members == mk);
                assert(!zombie(m, mk[j].threads[k]));
            }
        }
    }
}

/// Once a kill fails, the rest of the threads are left alone.
proof fn lemma_kill_all_fails(m: ManagerView, ts: Seq<u64>, k: int)
    requires
        0 <= k < ts.len(),
        !kill_all(m, ts.take(k + 1)).1,
    ensures
        kill_all(m, ts) == kill_all(m, ts.take(k + 1)),
    decreases ts.len() - k,
{
    if k + 1 == ts.len() {
        assert(ts.take(k + 1) =~= ts);
    } else {
        assert(ts.take(k + 2).drop_last() =~= ts.take(k + 1));
        lemma_kill_all_fails(m, ts, k + 1);
    }
}

/// Filing a process among members keeps every member's threads in order.
proof fn lemma_upsert_threads(ms: Seq<ProcessView>, p: ProcessView)
    requires
        ascending(member_keys(ms)),
        forall|j: int| 0 <= j < ms.len() ==> ascending(#[trigger] ms[j].threads),
        ascending(p.threads),
    ensures
        forall|j: int| 0 <= j < upsert_member(ms, p).len() ==> ascending(#[trigger] upsert_member(ms, p)[j].threads),
{
    let i = count_below(member_keys(ms), p.pid) as int;
    let u = upsert_member(ms, p);
    lemma_count_below(member_keys(ms), p.pid);
    assert forall|j: int| 0 <= j < u.len() implies ascending(#[trigger] u[j].threads) by {
        if i < ms.len() && ms[i].pid == p.pid {
            if j != i {
                assert(u[j] == ms[j]);
            }
        } else {
            if j < i {
                assert(u[j] == ms[j]);
            } else if j > i {
                assert(u[j] == ms[j - 1]);
            }
        }
    }
}

/// Where `k` goes among ascending keys: after the keys below it.
fn key_place(keys: &Vec<u64>, k: u64) -> (r: usize)
    requires
        ascending(keys@),
    ensures
        r == count_below(keys@, k),
{
    let mut i: usize = 0;
    proof {
        assert(keys@.skip(0) =~= keys@);
    }
    while i < keys.len()
        invariant
            i <= keys@.len(),
            count_below(keys@, k) == i + count_below(keys@.skip(i as int), k),
        ensures
            i < keys@.len() ==> keys@[i as int] >= k,
        decreases keys@.len() - i,
    {
        if keys[i] >= k {
            break;
        }
        proof {
            let w = keys@.skip(i as int);
            assert(w[0] == keys@[i as int]);
            assert(w.drop_first() =~= keys@.skip(i + 1));
        }
        i = i + 1;
    }
    proof {
        let w = keys@.skip(i as int);
        if i < keys@.len() {
            assert(w[0] == keys@[i as int]);
        } else {
            assert(w =~= Seq::<u64>::empty());
        }
    }
    i
}

impl ProcessNode {
    fn single(pid: u64, tid: ThreadID) -> (r: Self)
        ensures
            r.view() == single(pid, tid@),
    {
        let mut threads: Vec<ThreadID> = Vec::new();
        threads.push(tid);
        let r = ProcessNode { pid, leader: tid, threads };
        assert(r.view().threads =~= seq![tid@]);
        r
    }
}

impl GroupNode {
    fn member_keys(&self) -> (r: Vec<u64>)
        ensures
            r@ == member_keys(self.view().members),
    {
        let mut r: Vec<u64> = Vec::new();
        let mut k: usize = 0;
        while k < self.members.len()
            invariant
                k <= self.members@.len(),
                r@ == member_keys(self.view().members).take(k as int),
            decreases self.members@.len() - k,
        {
            r.push(self.members[k].pid);
            proof {
                assert(r@ =~= member_keys(self.view().members).take(k + 1));
            }
            k = k + 1;
        }
        proof {
            assert(member_keys(self.view().members).take(k as int) =~= member_keys(self.view().members));
        }
        r
    }

    /// Files `node` by its number among the members.
    fn upsert(&mut self, node: ProcessNode)
        requires
            ascending(member_keys(old(self).view().members)),
            ascending(node.view().threads),
            forall|j: int| 0 <= j < old(self).view().members.len() ==> ascending(#[trigger] old(self).view().members[j].threads),
        ensures
            final(self).view() == (GroupView {
                pgid: old(self).pgid,
                leader: old(self).leader,
                members: upsert_member(old(self).view().members, node.view()),
            }),
            ascending(member_keys(final(self).view().members)),
            forall|j: int| 0 <= j < final(self).view().members.len() ==> ascending(#[trigger] final(self).view().members[j].threads),
    {
        let ghost ms = self.view().members;
        let ghost nv = node.view();
        let keys = self.member_keys();
        let j = key_place(&keys, node.pid);
        proof {
            lemma_insert_ascending(member_keys(ms), nv.pid);
            lemma_count_below(member_keys(ms), nv.pid);
        }
        if j < self.members.len() && self.members[j].pid == node.pid {
            self.members.set(j, node);
            proof {
                assert(self.view().members =~= ms.update(j as int, nv));
                assert(member_keys(ms.update(j as int, nv)) =~= member_keys(ms).update(j as int, nv.pid));
            }
        } else {
            self.members.insert(j, node);
            proof {
                assert(self.view().members =~= ms.insert(j as int, nv));
                assert(member_keys(ms.insert(j as int, nv)) =~= member_keys(ms).insert(j as int, nv.pid));
                let r = ms.insert(j as int, nv);
                assert forall|a: int| 0 <= a < r.len() implies ascending(#[trigger] r[a].threads) by {
                    if a < j {
                        assert(r[a] == ms[a]);
                    } else if a > j {
                        assert(r[a] == ms[a - 1]);
                    }
                }
            }
        }
    }
}

impl ProcessTree {
    pub closed spec fn groups(&self) -> Seq<GroupView> {
        self.groups@.map_values(|g: GroupNode| g.view())
    }

    pub closed spec fn processes(&self) -> Seq<ProcessInfo> {
        self.processes@
    }

    /// The process number handed out next.
    pub closed spec fn pid_counter(&self) -> u64 {
        self.next_pid
    }

    /// The group number handed out next.
    pub closed spec fn pgrid_counter(&self) -> u64 {
        self.next_pgrid
    }

    pub open spec fn wf(&self) -> bool {
        tree_wf(self.groups()) && pids_unique(self.processes())
    }

    /// No groups and no processes.
    pub fn new() -> (r: Self)
        ensures
            r.wf(),
            r.groups() == Seq::<GroupView>::empty(),
            r.processes() == Seq::<ProcessInfo>::empty(),
            r.pid_counter() == 0,
            r.pgrid_counter() == 0,
    {
        let r = ProcessTree { groups: Vec::new(), processes: Vec::new(), next_pid: 0, next_pgrid: 0 };
        assert(r.groups() =~= Seq::<GroupView>::empty());
        r
    }

    /// Where process `pid` is in the table.
    fn info_position(&self, pid: u64) -> (r: Option<usize>)
        ensures
            match r {
                Some(i) => i as int == info_index(self.processes(), pid) && i < self.processes().len(),
                None => info_index(self.processes(), pid) < 0,
            },
    {
        let ghost ps = self.processes@;
        let mut i: usize = self.processes.len();
        proof {
            assert(ps.take(i as int) =~= ps);
            lemma_info_index(ps, pid);
        }
        while i > 0
            invariant
                ps == self.processes@,
                i <= ps.len(),
                info_index(ps, pid) == info_index(ps.take(i as int), pid),
            decreases i,
        {
            let ghost t = ps.take(i as int);
            proof {
                assert(t.last() == ps[i - 1]);
                assert(t.drop_last() =~= ps.take(i - 1));
            }
            if self.processes[i - 1].pid == pid {
                return Some(i - 1);
            }
            i = i - 1;
        }
        None
    }

    /// The group of process `pid`, if it is known.
    pub fn pgrid(&self, pid: ProcessID) -> (r: Option<ProcessGroupID>)
        ensures
            match r {
                Some(g) => info_index(self.processes(), pid.0) >= 0 && g.0 == self.processes()[info_index(
                    self.processes(),
                    pid.0,
                )].pgid,
                None => info_index(self.processes(), pid.0) < 0,
            },
    {
        match self.info_position(pid.0) {
            Some(i) => Some(ProcessGroupID(self.processes[i].pgid)),
            None => None,
        }
    }

    /// The state of process `pid`, if it is known.
    pub fn process_state(&self, pid: ProcessID) -> (r: Option<TaskState>)
        ensures
            match r {
                Some(s) => info_index(self.processes(), pid.0) >= 0 && s == self.processes()[info_index(
                    self.processes(),
                    pid.0,
                )].state,
                None => info_index(self.processes(), pid.0) < 0,
            },
    {
        match self.info_position(pid.0) {
            Some(i) => Some(self.processes[i].state),
            None => None,
        }
    }

    fn group_keys(&self) -> (r: Vec<u64>)
        ensures
            r@ == group_keys(self.groups()),
    {
        let mut r: Vec<u64> = Vec::new();
        let mut k: usize = 0;
        while k < self.groups.len()
            invariant
                k <= self.groups@.len(),
                r@ == group_keys(self.groups()).take(k as int),
            decreases self.groups@.len() - k,
        {
            r.push(self.groups[k].pgid);
            proof {
                assert(r@ =~= group_keys(self.groups()).take(k + 1));
            }
            k = k + 1;
        }
        proof {
            assert(group_keys(self.groups()).take(k as int) =~= group_keys(self.groups()));
        }
        r
    }

    /// Adds thread `tid` as the leader of process `pid` in group `pgid`,
    /// the process being in `state`; see `add_spec` and `upsert_info`.
    pub fn add(&mut self, tid: ThreadID, pid: ProcessID, pgid: ProcessGroupID, state: TaskState)
        requires
            old(self).wf(),
        ensures
            final(self).wf(),
            final(self).groups() == add_spec(old(self).groups(), pid.0, tid@, pgid.0),
            final(self).processes() == upsert_info(old(self).processes(), ProcessInfo { pid: pid.0, pgid: pgid.0, state }),
    {
        let info = ProcessInfo { pid: pid.0, pgid: pgid.0, state };
        let ghost ps = self.processes@;
        match self.info_position(pid.0) {
            Some(i) => {
                self.processes.set(i, info);
            },
            None => {
                self.processes.push(info);
            },
        }
        proof {
            lemma_info_index(ps, pid.0);
            let t = upsert_info(ps, info);
            assert(self.processes@ == t);
            assert forall|a: int, b: int| 0 <= a < t.len() && 0 <= b < t.len() && a != b implies t[a].pid != t[b].pid by {
                if info_index(ps, pid.0) < 0 {
                    if a < ps.len() && b < ps.len() {
                        assert(t[a] == ps[a] && t[b] == ps[b]);
                    } else if a < ps.len() {
                        assert(t[a] == ps[a]);
                    } else {
                        assert(t[b] == ps[b]);
                    }
                } else {
                    let k = info_index(ps, pid.0);
                    if a != k && b != k {
                        assert(t[a] == ps[a] && t[b] == ps[b]);
                    } else if a == k {
                        assert(t[b] == ps[b]);
                    } else {
                        assert(t[a] == ps[a]);
                    }
                }
            }
        }
        let ghost gs = self.groups();
        let node = ProcessNode::single(pid.0, tid);
        let keys = self.group_keys();
        let i = key_place(&keys, pgid.0);
        proof {
            lemma_insert_ascending(group_keys(gs), pgid.0);
            lemma_count_below(group_keys(gs), pgid.0);
            assert(ascending(node.view().threads));
        }
        if i < self.groups.len() && self.groups[i].pgid == pgid.0 {
            proof {
                assert(self.groups@[i as int].view() == gs[i as int]);
            }
            self.groups[i].upsert(node);
            proof {
                let ng = GroupView { pgid: pgid.0, leader: gs[i as int].leader, members: upsert_member(gs[i as int].members, single(pid.0, tid@)) };
                assert(self.groups() =~= gs.update(i as int, ng)) by {
                    assert forall|k: int| 0 <= k < gs.len() implies #[trigger] self.groups()[k] == gs.update(i as int, ng)[k] by {
                        if k != i {
                            assert(self.groups()[k] == self.groups@[k].view());
                        }
                    }
                }
                assert(group_keys(gs.update(i as int, ng)) =~= group_keys(gs).update(i as int, pgid.0));
                let t = gs.update(i as int, ng);
                assert forall|a: int| 0 <= a < t.len() implies ascending(member_keys(#[trigger] t[a].members)) by {
                    if a != i {
                        assert(t[a] == gs[a]);
                    }
                }
                assert(forall|j: int| 0 <= j < gs[i as int].members.len() ==> ascending(#[trigger] gs[i as int].members[j].threads));
                assert(ascending(member_keys(gs[i as int].members)));
                lemma_upsert_threads(gs[i as int].members, single(pid.0, tid@));
                assert forall|a: int, b: int| 0 <= a < t.len() && 0 <= b < t[a].members.len() implies ascending(#[trigger] t[a].members[b].threads) by {
                    if a != i {
                        assert(t[a] == gs[a]);
                    } else {
                        assert(t[a].members == upsert_member(gs[i as int].members, single(pid.0, tid@)));
                    }
                }
            }
        } else {
            let mut members: Vec<ProcessNode> = Vec::new();
            members.push(node);
            let g = GroupNode { pgid: pgid.0, leader: Some(pid.0), members };
            proof {
                assert(g.view().members =~= seq![single(pid.0, tid@)]);
            }
            let ghost gv = g.view();
            self.groups.insert(i, g);
            proof {
                assert(self.groups() =~= gs.insert(i as int, gv));
                assert(group_keys(gs.insert(i as int, gv)) =~= group_keys(gs).insert(i as int, pgid.0));
                let t = gs.insert(i as int, gv);
                assert(member_keys(gv.members) =~= seq![pid.0]);
                assert forall|a: int| 0 <= a < t.len() implies ascending(member_keys(#[trigger] t[a].members)) by {
                    if a < i {
                        assert(t[a] == gs[a]);
                    } else if a > i {
                        assert(t[a] == gs[a - 1]);
                    }
                }
                assert forall|a: int, b: int| 0 <= a < t.len() && 0 <= b < t[a].members.len() implies ascending(#[trigger] t[a].members[b].threads) by {
                    if a < i {
                        assert(t[a] == gs[a]);
                        assert(ascending(gs[a].members[b].threads));
                    } else if a > i {
                        assert(t[a] == gs[a - 1]);
                        assert(ascending(gs[a - 1].members[b].threads));
                    } else {
                        assert(t[a].members[b] == single(pid.0, tid@));
                        assert(ascending(seq![tid@]));
                    }
                }
            }
        }
    }
}

/// Whether thread `t` is among `v`.
fn contains_thread(v: &Vec<ThreadID>, t: ThreadID) -> (r: bool)
    ensures
        r == v@.map_values(|x: ThreadID| x@).contains(t@),
{
    let mut k: usize = 0;
    while k < v.len()
        invariant
            k <= v@.len(),
            forall|j: int| 0 <= j < k ==> v@[j]@ != t@,
        decreases v@.len() - k,
    {
        if v[k].get_inner() == t.get_inner() {
            proof {
                assert(v@.map_values(|x: ThreadID| x@)[k as int] == t@);
            }
            return true;
        }
        k = k + 1;
    }
    proof {
        if v@.map_values(|x: ThreadID| x@).contains(t@) {
            let vs = v@.map_values(|x: ThreadID| x@);
            let j = choose|j: int| 0 <= j < vs.len() && #[trigger] vs[j] == t@;
            assert(v@[j]@ == t@);
        }
    }
    false
}

impl ProcessNode {
    /// The living and the dead threads, in order.
    fn clean(&self, tasks: &TaskManager) -> (r: (Vec<ThreadID>, Vec<ThreadID>))
        requires
            tasks.wf(),
        ensures
            r.0@.map_values(|t: ThreadID| t@) == pick(tasks.view(), self.view().threads, false),
            r.1@.map_values(|t: ThreadID| t@) == pick(tasks.view(), self.view().threads, true),
    {
        let ghost ts = self.view().threads;
        let ghost m = tasks.view();
        let mut live: Vec<ThreadID> = Vec::new();
        let mut dead: Vec<ThreadID> = Vec::new();
        let mut k: usize = 0;
        proof {
            assert(ts.take(0) =~= Seq::<u64>::empty());
            assert(live@.map_values(|t: ThreadID| t@) =~= Seq::<u64>::empty());
            assert(dead@.map_values(|t: ThreadID| t@) =~= Seq::<u64>::empty());
        }
        while k < self.threads.len()
            invariant
                ts == self.view().threads,
                m == tasks.view(),
                tasks.wf(),
                k <= ts.len(),
                live@.map_values(|t: ThreadID| t@) == pick(m, ts.take(k as int), false),
                dead@.map_values(|t: ThreadID| t@) == pick(m, ts.take(k as int), true),
            decreases ts.len() - k,
        {
            let t = self.threads[k];
            let is_zombie = match tasks.thread_state(t) {
                Some(TaskState::Zombie) => true,
                _ => false,
            };
            let ghost l0 = live@;
            let ghost d0 = dead@;
            if is_zombie {
                dead.push(t);
            } else {
                live.push(t);
            }
            proof {
                assert(ts.take(k + 1).drop_last() =~= ts.take(k as int));
                assert(ts.take(k + 1).last() == t@);
                assert(zombie(m, t@) == is_zombie);
                assert(live@.map_values(|t: ThreadID| t@) =~= (if is_zombie { l0.map_values(|t: ThreadID| t@) } else { l0.map_values(|t: ThreadID| t@).push(t@) }));
                assert(dead@.map_values(|t: ThreadID| t@) =~= (if is_zombie { d0.map_values(|t: ThreadID| t@).push(t@) } else { d0.map_values(|t: ThreadID| t@) }));
            }
            k = k + 1;
        }
        proof {
            assert(ts.take(ts.len() as int) =~= ts);
        }
        (live, dead)
    }
}

impl GroupNode {
    /// The members kept, the dead threads and the processes that go; see
    /// `clean_members`.
    fn clean(&self, tasks: &TaskManager) -> (r: (Vec<ProcessNode>, Vec<ThreadID>, Vec<u64>))
        requires
            tasks.wf(),
        ensures
            (r.0@.map_values(|p: ProcessNode| p.view()), r.1@.map_values(|t: ThreadID| t@), r.2@) == clean_members(
                tasks.view(),
                self.view().members,
            ),
    {
        let ghost ms = self.view().members;
        let ghost m = tasks.view();
        let mut kept: Vec<ProcessNode> = Vec::new();
        let mut dead: Vec<ThreadID> = Vec::new();
        let mut gone: Vec<u64> = Vec::new();
        let mut k: usize = 0;
        proof {
            assert(ms.take(0) =~= Seq::<ProcessView>::empty());
            assert(kept@.map_values(|p: ProcessNode| p.view()) =~= Seq::<ProcessView>::empty());
            assert(dead@.map_values(|t: ThreadID| t@) =~= Seq::<u64>::empty());
        }
        while k < self.members.len()
            invariant
                ms == self.view().members,
                m == tasks.view(),
                tasks.wf(),
                k <= ms.len(),
                (kept@.map_values(|p: ProcessNode| p.view()), dead@.map_values(|t: ThreadID| t@), gone@) == clean_members(
                    m,
                    ms.take(k as int),
                ),
            decreases ms.len() - k,
        {
            let member = &self.members[k];
            let (live, died) = member.clean(tasks);
            let leader_dead = contains_thread(&died, member.leader);
            let ghost k0 = kept@;
            let ghost d0 = dead@;
            let mut j: usize = 0;
            while j < died.len()
                invariant
                    j <= died@.len(),
                    dead@.map_values(|t: ThreadID| t@) == d0.map_values(|t: ThreadID| t@) + died@.take(j as int).map_values(|t: ThreadID| t@),
                decreases died@.len() - j,
            {
                let ghost before = dead@;
                dead.push(died[j]);
                proof {
                    assert(died@.take(j + 1) =~= died@.take(j as int).push(died@[j as int]));
                    assert(died@.take(j + 1).map_values(|t: ThreadID| t@) =~= died@.take(j as int).map_values(|t: ThreadID| t@).push(died@[j as int]@));
                    assert(dead@.map_values(|t: ThreadID| t@) =~= before.map_values(|t: ThreadID| t@).push(died@[j as int]@));
                    assert(dead@.map_values(|t: ThreadID| t@) =~= d0.map_values(|t: ThreadID| t@) + died@.take(j + 1).map_values(|t: ThreadID| t@));
                }
                j = j + 1;
            }
            proof {
                assert(died@.take(died@.len() as int) =~= died@);
                assert(ms.take(k + 1).drop_last() =~= ms.take(k as int));
                assert(ms.take(k + 1).last() == member.view());
                assert(ms[k as int] == member.view());
            }
            if live.len() == 0 || leader_dead {
                gone.push(member.pid);
            } else {
                let node = ProcessNode { pid: member.pid, leader: member.leader, threads: live };
                kept.push(node);
                proof {
                    assert(kept@.map_values(|p: ProcessNode| p.view()) =~= k0.map_values(|p: ProcessNode| p.view()).push(node.view()));
                }
            }
            k = k + 1;
        }
        proof {
            assert(ms.take(ms.len() as int) =~= ms);
        }
        (kept, dead, gone)
    }
}

impl ProcessTree {
    /// Prunes what has exited, by the states in the thread table: each
    /// process loses its zombie threads, and goes (becoming a zombie in the
    /// process table) when none is left or its leader died; each group
    /// without members goes. What exited is returned in order; see
    /// `clean_groups`.
    pub fn cleanup_tree(&mut self, tasks: &TaskManager) -> (r: Vec<Exited>)
        requires
            old(self).wf(),
            tasks.wf(),
        ensures
            final(self).wf(),
            final(self).groups() == clean_groups(tasks.view(), old(self).groups()).0,
            r@.map_values(|e: Exited| exited_view(e)) == clean_groups(tasks.view(), old(self).groups()).1,
            final(self).processes() == zombify(old(self).processes(), clean_groups(tasks.view(), old(self).groups()).2),
    {
        let ghost gs = self.groups();
        let ghost m = tasks.view();
        let mut kept: Vec<GroupNode> = Vec::new();
        let mut events: Vec<Exited> = Vec::new();
        let mut gone: Vec<u64> = Vec::new();
        let mut k: usize = 0;
        proof {
            assert(gs.take(0) =~= Seq::<GroupView>::empty());
            assert(kept@.map_values(|g: GroupNode| g.view()) =~= Seq::<GroupView>::empty());
            assert(events@.map_values(|e: Exited| exited_view(e)) =~= Seq::<ExitedView>::empty());
        }
        while k < self.groups.len()
            invariant
                gs == self.groups(),
                m == tasks.view(),
                tasks.wf(),
                k <= gs.len(),
                (kept@.map_values(|g: GroupNode| g.view()), events@.map_values(|e: Exited| exited_view(e)), gone@) == clean_groups(
                    m,
                    gs.take(k as int),
                ),
            decreases gs.len() - k,
        {
            let group = &self.groups[k];
            let (members, dead, went) = group.clean(tasks);
            let ghost e0 = events@;
            let ghost g0 = gone@;
            let mut j: usize = 0;
            while j < dead.len()
                invariant
                    j <= dead@.len(),
                    events@.map_values(|e: Exited| exited_view(e)) == e0.map_values(|e: Exited| exited_view(e))
                        + dead@.take(j as int).map_values(|t: ThreadID| ExitedView::Thread(t@)),
                decreases dead@.len() - j,
            {
                let ghost before = events@;
                events.push(Exited::Thread(dead[j]));
                proof {
                    assert(dead@.take(j + 1) =~= dead@.take(j as int).push(dead@[j as int]));
                    assert(dead@.take(j + 1).map_values(|t: ThreadID| ExitedView::Thread(t@)) =~= dead@.take(j as int).map_values(|t: ThreadID| ExitedView::Thread(t@)).push(ExitedView::Thread(dead@[j as int]@)));
                    assert(events@.map_values(|e: Exited| exited_view(e)) =~= before.map_values(|e: Exited| exited_view(e)).push(ExitedView::Thread(dead@[j as int]@)));
                    assert(events@.map_values(|e: Exited| exited_view(e)) =~= e0.map_values(|e: Exited| exited_view(e))
                        + dead@.take(j + 1).map_values(|t: ThreadID| ExitedView::Thread(t@)));
                }
                j = j + 1;
            }
            let ghost e1 = events@;
            let mut j: usize = 0;
            while j < went.len()
                invariant
                    j <= went@.len(),
                    gone@ == g0 + went@.take(j as int),
                    events@.map_values(|e: Exited| exited_view(e)) == e1.map_values(|e: Exited| exited_view(e))
                        + went@.take(j as int).map_values(|p: u64| ExitedView::Process(p)),
                decreases went@.len() - j,
            {
                let ghost before = events@;
                events.push(Exited::Process(ProcessID(went[j])));
                gone.push(went[j]);
                proof {
                    assert(went@.take(j + 1) =~= went@.take(j as int).push(went@[j as int]));
                    assert(went@.take(j + 1).map_values(|p: u64| ExitedView::Process(p)) =~= went@.take(j as int).map_values(|p: u64| ExitedView::Process(p)).push(ExitedView::Process(went@[j as int])));
                    assert(events@.map_values(|e: Exited| exited_view(e)) =~= before.map_values(|e: Exited| exited_view(e)).push(ExitedView::Process(went@[j as int])));
                    assert(events@.map_values(|e: Exited| exited_view(e)) =~= e1.map_values(|e: Exited| exited_view(e))
                        + went@.take(j + 1).map_values(|p: u64| ExitedView::Process(p)));
                    assert(gone@ =~= g0 + went@.take(j + 1));
                }
                j = j + 1;
            }
            let ghost gv = group.view();
            proof {
                assert(dead@.take(dead@.len() as int) =~= dead@);
                assert(went@.take(went@.len() as int) =~= went@);
                assert(gs.take(k + 1).drop_last() =~= gs.take(k as int));
                assert(gs.take(k + 1).last() == gv);
                assert(gs[k as int] == gv);
                let te = dead@.map_values(|t: ThreadID| t@);
                assert(dead@.map_values(|t: ThreadID| ExitedView::Thread(t@)) =~= te.map_values(|t: u64| ExitedView::Thread(t)));
                assert(events@.map_values(|e: Exited| exited_view(e)) =~= e0.map_values(|e: Exited| exited_view(e)) + group_exits(te, went@));
            }
            if members.len() > 0 {
                let ghost mv = members@.map_values(|p: ProcessNode| p.view());
                let ghost k0 = kept@;
                let node = GroupNode { pgid: group.pgid, leader: group.leader, members };
                kept.push(node);
                proof {
                    assert(node.view().members == mv);
                    assert(kept@.map_values(|g: GroupNode| g.view()) =~= k0.map_values(|g: GroupNode| g.view()).push(node.view()));
                }
            }
            k = k + 1;
        }
        proof {
            assert(gs.take(gs.len() as int) =~= gs);
            lemma_clean_wf(m, gs);
        }
        self.groups = kept;
        let ghost ps = self.processes@;
        let ghost kg = self.groups();
        let mut i: usize = 0;
        while i < self.processes.len()
            invariant
                self.groups() == kg,
                ps.len() == self.processes@.len(),
                i <= ps.len(),
                forall|a: int| 0 <= a < i ==> #[trigger] self.processes@[a] == zombify(ps, gone@)[a],
                forall|a: int| i <= a < ps.len() ==> #[trigger] self.processes@[a] == ps[a],
            decreases ps.len() - i,
        {
            let info = self.processes[i];
            let mut hit = false;
            let mut j: usize = 0;
            while j < gone.len()
                invariant
                    j <= gone@.len(),
                    hit == gone@.take(j as int).contains(info.pid),
                decreases gone@.len() - j,
            {
                if gone[j] == info.pid {
                    hit = true;
                }
                proof {
                    let pre = gone@.take(j + 1);
                    let old_pre = gone@.take(j as int);
                    assert(pre =~= old_pre.push(gone@[j as int]));
                    if gone@[j as int] == info.pid {
                        assert(pre[j as int] == info.pid);
                    }
                    if old_pre.contains(info.pid) {
                        let w = choose|w: int| 0 <= w < old_pre.len() && #[trigger] old_pre[w] == info.pid;
                        assert(pre[w] == info.pid);
                    }
                    if pre.contains(info.pid) && gone@[j as int] != info.pid {
                        let w = choose|w: int| 0 <= w < pre.len() && #[trigger] pre[w] == info.pid;
                        assert(old_pre[w] == info.pid);
                    }
                }
                j = j + 1;
            }
            proof {
                assert(gone@.take(gone@.len() as int) =~= gone@);
            }
            if hit {
                self.processes.set(i, ProcessInfo { pid: info.pid, pgid: info.pgid, state: TaskState::Zombie });
            }
            i = i + 1;
        }
        proof {
            assert(self.processes@ =~= zombify(ps, gone@));
            assert forall|a: int, b: int| 0 <= a < self.processes@.len() && 0 <= b < self.processes@.len() && a != b implies self.processes@[a].pid != self.processes@[b].pid by {
                assert(self.processes@[a].pid == ps[a].pid);
                assert(self.processes@[b].pid == ps[b].pid);
            }
        }
        events
    }
}

impl ProcessTree {
    /// Kills process `pid`: each of its threads is killed with signal 0,
    /// and the process becomes a zombie; see `kill_process_spec`. On
    /// success the caller announces `Exited::Process(pid)`.
    pub fn kill_process(&mut self, pid: ProcessID, tasks: &mut TaskManager) -> (r: Option<()>)
        requires
            old(self).wf(),
            old(tasks).wf(),
        ensures
            final(self).wf(),
            final(tasks).wf(),
            final(self).groups() == old(self).groups(),
            (final(self).processes(), final(tasks).view(), r) == kill_process_spec(
                old(self).groups(),
                old(self).processes(),
                old(tasks).view(),
                pid.0,
            ),
    {
        let ghost gs = self.groups();
        let ghost ps = self.processes();
        let ghost m0 = tasks.view();
        let i = self.info_position(pid.0)?;
        let pgid = self.processes[i].pgid;
        let gkeys = self.group_keys();
        let g = key_place(&gkeys, pgid);
        if !(g < self.groups.len() && self.groups[g].pgid == pgid) {
            return None;
        }
        let group = &self.groups[g];
        let mkeys = group.member_keys();
        proof {
            assert(gs[g as int] == group.view());
        }
        let j = key_place(&mkeys, pid.0);
        if !(j < group.members.len() && group.members[j].pid == pid.0) {
            return None;
        }
        let member = &group.members[j];
        let ghost ts = member.view().threads;
        proof {
            assert(group.view().members[j as int] == member.view());
            assert(ts.take(0) =~= Seq::<u64>::empty());
        }
        let mut k: usize = 0;
        while k < member.threads.len()
            invariant
                ts == member.view().threads,
                m0 == old(tasks).view(),
                gs == old(self).groups(),
                ps == old(self).processes(),
                self.groups() == gs,
                self.processes() == ps,
                self.wf(),
                0 <= i < ps.len(),
                i as int == info_index(ps, pid.0),
                pgid == ps[i as int].pgid,
                g as int == count_below(group_keys(gs), pgid),
                g < gs.len(),
                gs[g as int].pgid == pgid,
                j as int == count_below(member_keys(gs[g as int].members), pid.0),
                j < gs[g as int].members.len(),
                gs[g as int].members[j as int].pid == pid.0,
                ts == gs[g as int].members[j as int].threads,
                k <= ts.len(),
                tasks.wf(),
                (tasks.view(), true) == kill_all(m0, ts.take(k as int)),
            decreases ts.len() - k,
        {
            let t = member.threads[k];
            proof {
                assert(ts.take(k + 1).drop_last() =~= ts.take(k as int));
                assert(ts.take(k + 1).last() == t@);
            }
            let done = tasks.kill(t, 0);
            if done.is_none() {
                proof {
                    assert(kill_all(m0, ts.take(k + 1)) == (tasks.view(), false));
                    lemma_kill_all_fails(m0, ts, k as int);
                    assert(kill_all(m0, ts) == (tasks.view(), false));
                    assert(kill_process_spec(gs, ps, m0, pid.0) == (ps, tasks.view(), None::<()>));
                }
                return None;
            }
            k = k + 1;
        }
        proof {
            assert(ts.take(ts.len() as int) =~= ts);
        }
        self.processes.set(i, ProcessInfo { pid: pid.0, pgid, state: TaskState::Zombie });
        proof {
            lemma_info_index(ps, pid.0);
            assert(self.processes@ =~= ps.update(i as int, ProcessInfo { pid: pid.0, pgid, state: TaskState::Zombie }));
            assert(self.groups() == gs);
            assert forall|a: int, b: int| 0 <= a < self.processes@.len() && 0 <= b < self.processes@.len() && a != b implies self.processes@[a].pid != self.processes@[b].pid by {
                assert(self.processes@[a].pid == ps[a].pid);
                assert(self.processes@[b].pid == ps[b].pid);
            }
        }
        Some(())
    }
}

impl ProcessTree {
    /// Hands out a process number: they count up from 0, wrapping around
    /// past the greatest.
    pub fn next_pid(&mut self) -> (r: ProcessID)
        ensures
            r.0 == old(self).pid_counter(),
            final(self).pid_counter() == old(self).pid_counter().wrapping_add(1),
            final(self).pgrid_counter() == old(self).pgrid_counter(),
            final(self).groups() == old(self).groups(),
            final(self).processes() == old(self).processes(),
    {
        let current = self.next_pid;
        self.next_pid = self.next_pid.wrapping_add(1);
        ProcessID(current)
    }

    /// Hands out a group number: they count up from 0, wrapping around
    /// past the greatest.
    pub fn next_pgrid(&mut self) -> (r: ProcessGroupID)
        ensures
            r.0 == old(self).pgrid_counter(),
            final(self).pgrid_counter() == old(self).pgrid_counter().wrapping_add(1),
            final(self).pid_counter() == old(self).pid_counter(),
            final(self).groups() == old(self).groups(),
            final(self).processes() == old(self).processes(),
    {
        let current = self.next_pgrid;
        self.next_pgrid = self.next_pgrid.wrapping_add(1);
        ProcessGroupID(current)
    }
}

} // verus!
