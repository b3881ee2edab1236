use vstd::prelude::*;

use crate::entity::Entity;
use crate::entity_set::{
    spec_push, EntitySet, EntitySetMode, EntitySetModel, prio_rank, prio_slot, ticked_max,
};
use crate::error::SdmError;
use crate::event::Event;
use crate::process::Process;
use crate::resource::{Resource, ResourceModel};
use crate::sat_add_u64;
use vstd::multiset::Multiset;

verus! {

/// The virtual-time span of one analytics tick.
pub const ANALYTICS_REFRESH: u64 = 1;

/// Dispatch order on queue entries: by scheduled time, ties by the order the
/// entries were enqueued (their tie-break sequence number).
pub open spec fn key_le<T>(a: (u64, u64, T), b: (u64, u64, T)) -> bool {
    a.0 < b.0 || (a.0 == b.0 && a.1 <= b.1)
}

/// A queue is kept descending from head to tail, so the tail is the next
/// entry to dispatch: the earliest time, and among equal times the earliest
/// enqueued.
pub open spec fn queue_sorted<T>(q: Seq<(u64, u64, T)>) -> bool {
    forall|i: int, j: int| 0 <= i < j < q.len() ==> key_le(#[trigger] q[j], #[trigger] q[i])
}

/// Every tie-break sequence number in the queue is below `n`.
pub open spec fn seqs_below<T>(q: Seq<(u64, u64, T)>, n: u64) -> bool {
    forall|i: int| 0 <= i < q.len() ==> #[trigger] q[i].1 < n
}

/// Every scheduled time in the queue is at or after `t`: nothing is overdue.
pub open spec fn times_at_or_after<T>(q: Seq<(u64, u64, T)>, t: u64) -> bool {
    forall|i: int| 0 <= i < q.len() ==> #[trigger] q[i].0 >= t
}

/// Where a new entry lands: the first index from the head whose time is not
/// later than `t`. Entries of equal time already in the queue sit at or after
/// this index and keep dispatching first.
pub open spec fn queue_slot<T>(q: Seq<(u64, u64, T)>, t: u64) -> int
    decreases q.len(),
{
    if q.len() == 0 {
        0
    } else if q[0].0 <= t {
        0
    } else {
        1 + queue_slot(q.drop_first(), t)
    }
}

/// The queue after enqueueing one entry at time `t` with tie-break number `s`.
pub open spec fn queue_insert<T>(q: Seq<(u64, u64, T)>, t: u64, s: u64, x: T) -> Seq<(u64, u64, T)> {
    q.insert(queue_slot(q, t), (t, s, x))
}

/// `queue_slot` splits the queue into a head side of strictly later times
/// and a tail side that starts no later than `t`.
proof fn lemma_queue_slot_props<T>(q: Seq<(u64, u64, T)>, t: u64)
    ensures
        0 <= queue_slot(q, t) <= q.len(),
        forall|j: int| 0 <= j < queue_slot(q, t) ==> (#[trigger] q[j]).0 > t,
        queue_slot(q, t) < q.len() ==> q[queue_slot(q, t)].0 <= t,
    decreases q.len(),
{
    if q.len() == 0 {
    } else if q[0].0 <= t {
    } else {
        lemma_queue_slot_props(q.drop_first(), t);
        let s = queue_slot(q, t);
        assert forall|j: int| 0 <= j < s implies (#[trigger] q[j]).0 > t by {
            if j > 0 {
                assert(q.drop_first()[j - 1] == q[j]);
            }
        }
        if s < q.len() {
            assert(q.drop_first()[s - 1] == q[s]);
        }
    }
}

/// Enqueueing keeps the queue sorted, provided the new tie-break number is
/// fresh (larger than every number already in the queue).
proof fn lemma_queue_insert_sorted<T>(q: Seq<(u64, u64, T)>, t: u64, s: u64, x: T)
    requires
        queue_sorted(q),
        seqs_below(q, s),
    ensures
        queue_sorted(queue_insert(q, t, s, x)),
{
    lemma_queue_slot_props(q, t);
    let k = queue_slot(q, t);
    let out = queue_insert(q, t, s, x);
    assert forall|i: int, j: int| 0 <= i < j < out.len() implies key_le(out[j], out[i]) by {
        if i < k && j < k {
            assert(out[i] == q[i] && out[j] == q[j]);
        } else if i < k && j == k {
            assert(out[i] == q[i]);
        } else if i < k && j > k {
            assert(out[i] == q[i] && out[j] == q[j - 1]);
        } else if i == k && j > k {
            assert(out[j] == q[j - 1]);
            assert(q[j - 1].0 <= t) by {
                if j - 1 > k {
                    assert(key_le(q[j - 1], q[k]));
                }
            }
        } else if i > k {
            assert(out[i] == q[i - 1] && out[j] == q[j - 1]);
        }
    }
}

/// Enqueueing an entry at a time at or after `t0`, with a number below `n`,
/// keeps every time at or after `t0` and every number below `n`.
proof fn lemma_queue_insert_bounds<T>(q: Seq<(u64, u64, T)>, t: u64, s: u64, x: T, t0: u64, n: u64)
    requires
        times_at_or_after(q, t0),
        seqs_below(q, n),
        t >= t0,
        s < n,
    ensures
        times_at_or_after(queue_insert(q, t, s, x), t0),
        seqs_below(queue_insert(q, t, s, x), n),
{
    lemma_queue_slot_props(q, t);
    let k = queue_slot(q, t);
    let out = queue_insert(q, t, s, x);
    assert forall|j: int| 0 <= j < out.len() implies (#[trigger] out[j]).0 >= t0 && out[j].1
        < n by {
        if j < k {
            assert(out[j] == q[j]);
        } else if j > k {
            assert(out[j] == q[j - 1]);
        }
    }
}

/// Enqueue an entry into a time-sorted queue.
fn fel_insert<T>(q: &mut Vec<(u64, u64, T)>, t: u64, s: u64, x: T)
    requires
        queue_sorted(old(q)@),
        seqs_below(old(q)@, s),
    ensures
        final(q)@ == queue_insert(old(q)@, t, s, x),
        queue_sorted(final(q)@),
{
    let ghost q0 = q@;
    let mut i: usize = 0;
    while i < q.len() && q[i].0 > t
        invariant
            q@ == q0,
            0 <= i <= q0.len(),
            forall|j: int| 0 <= j < i ==> (#[trigger] q0[j]).0 > t,
        decreases q0.len() - i,
    {
        i = i + 1;
    }
    proof {
        lemma_queue_slot_of_scan(q0, t, i as int);
        lemma_queue_insert_sorted(q0, t, s, x);
    }
    q.insert(i, (t, s, x));
}

/// A head-to-tail scan that stopped at the first time not later than `t` has
/// found `queue_slot`.
proof fn lemma_queue_slot_of_scan<T>(q: Seq<(u64, u64, T)>, t: u64, i: int)
    requires
        0 <= i <= q.len(),
        forall|j: int| 0 <= j < i ==> (#[trigger] q[j]).0 > t,
        i < q.len() ==> q[i].0 <= t,
    ensures
        queue_slot(q, t) == i,
    decreases q.len(),
{
    if q.len() == 0 {
    } else if q[0].0 <= t {
        assert(i == 0);
    } else {
        assert(i >= 1);
        lemma_queue_slot_of_scan(q.drop_first(), t, i - 1);
    }
}

/// Whether some registered process carries the identifier.
pub open spec fn contains_pid(ps: Seq<Process>, pid: u128) -> bool {
    exists|i: int| 0 <= i < ps.len() && (#[trigger] ps[i])@.pid == pid
}

/// The first index, from the head, of the process carrying the identifier
/// (`ps.len()` when none does).
pub open spec fn find_pid(ps: Seq<Process>, pid: u128) -> int
    decreases ps.len(),
{
    if ps.len() == 0 {
        0
    } else if ps[0]@.pid == pid {
        0
    } else {
        1 + find_pid(ps.drop_first(), pid)
    }
}

/// No two registered processes share an identifier.
pub open spec fn pids_distinct(ps: Seq<Process>) -> bool {
    forall|i: int, j: int|
        0 <= i < j < ps.len() ==> (#[trigger] ps[i])@.pid != (#[trigger] ps[j])@.pid
}

/// The registry after entering a process: a process with the same identifier
/// is replaced in place, otherwise the newcomer joins at the end of the
/// iteration order.
pub open spec fn registry_insert(ps: Seq<Process>, p: Process) -> Seq<Process> {
    if contains_pid(ps, p@.pid) {
        ps.update(find_pid(ps, p@.pid), p)
    } else {
        ps.push(p)
    }
}

/// A head-to-tail scan that stopped at the first identifier match has found
/// `find_pid`.
proof fn lemma_find_pid_of_scan(ps: Seq<Process>, pid: u128, i: int)
    requires
        0 <= i <= ps.len(),
        forall|j: int| 0 <= j < i ==> (#[trigger] ps[j])@.pid != pid,
        i < ps.len() ==> ps[i]@.pid == pid,
    ensures
        find_pid(ps, pid) == i,
    decreases ps.len(),
{
    if ps.len() == 0 {
    } else if ps[0]@.pid == pid {
        assert(i == 0);
    } else {
        assert(i >= 1);
        lemma_find_pid_of_scan(ps.drop_first(), pid, i - 1);
    }
}

/// Entering a process keeps identifiers distinct, keeps every identifier
/// that was present, and registers the newcomer's identifier.
proof fn lemma_registry_insert_props(ps: Seq<Process>, p: Process)
    requires
        pids_distinct(ps),
    ensures
        pids_distinct(registry_insert(ps, p)),
        forall|pid: u128| contains_pid(ps, pid) ==> #[trigger] contains_pid(
            registry_insert(ps, p),
            pid,
        ),
        contains_pid(registry_insert(ps, p), p@.pid),
{
    let out = registry_insert(ps, p);
    if contains_pid(ps, p@.pid) {
        let k = find_pid(ps, p@.pid);
        lemma_find_pid_in_range(ps, p@.pid);
        assert(out == ps.update(k, p));
        assert forall|pid: u128| contains_pid(ps, pid) implies #[trigger] contains_pid(
            out,
            pid,
        ) by {
            let w = choose|i: int| 0 <= i < ps.len() && (#[trigger] ps[i])@.pid == pid;
            if w == k {
                assert(ps[k]@.pid == p@.pid);
                assert(out[k]@.pid == pid);
            } else {
                assert(out[w]@.pid == pid);
            }
        }
        assert(out[k]@.pid == p@.pid);
        assert forall|i: int, j: int| 0 <= i < j < out.len() implies (#[trigger] out[i])@.pid != (
        #[trigger] out[j])@.pid by {
            if i != k && j != k {
                assert(out[i] == ps[i] && out[j] == ps[j]);
            } else if i == k {
                assert(out[j] == ps[j]);
                assert(ps[k]@.pid != ps[j]@.pid);
            } else {
                assert(out[i] == ps[i]);
                assert(ps[i]@.pid != ps[k]@.pid);
            }
        }
    } else {
        assert(out == ps.push(p));
        assert forall|pid: u128| contains_pid(ps, pid) implies #[trigger] contains_pid(
            out,
            pid,
        ) by {
            let w = choose|i: int| 0 <= i < ps.len() && (#[trigger] ps[i])@.pid == pid;
            assert(out[w]@.pid == pid);
        }
        assert(out[out.len() - 1]@.pid == p@.pid);
        assert forall|i: int, j: int| 0 <= i < j < out.len() implies (#[trigger] out[i])@.pid != (
        #[trigger] out[j])@.pid by {
            if j < out.len() - 1 {
                assert(out[i] == ps[i] && out[j] == ps[j]);
            } else {
                assert(out[i] == ps[i]);
                assert(!contains_pid(ps, p@.pid));
                assert(ps[i]@.pid != p@.pid);
            }
        }
    }
}

/// When the identifier is present, `find_pid` points at it.
proof fn lemma_find_pid_in_range(ps: Seq<Process>, pid: u128)
    requires
        contains_pid(ps, pid),
    ensures
        0 <= find_pid(ps, pid) < ps.len(),
        ps[find_pid(ps, pid)]@.pid == pid,
    decreases ps.len(),
{
    if ps[0]@.pid == pid {
    } else {
        assert forall|i: int|
            0 <= i < ps.drop_first().len() && (#[trigger] ps.drop_first()[i])@.pid
                == pid implies true by {}
        let w = choose|i: int| 0 <= i < ps.len() && (#[trigger] ps[i])@.pid == pid;
        assert(ps.drop_first()[w - 1] == ps[w]);
        assert(contains_pid(ps.drop_first(), pid));
        lemma_find_pid_in_range(ps.drop_first(), pid);
        assert(ps.drop_first()[find_pid(ps.drop_first(), pid)] == ps[find_pid(ps, pid)]);
    }
}

/// Every insertion stamp in the set is at or before `t`.
pub open spec fn stamps_at_or_before(items: Seq<(u64, Entity)>, t: u64) -> bool {
    forall|i: int| 0 <= i < items.len() ==> (#[trigger] items[i]).0 <= t
}

/// A push stamped at or before `t` keeps every stamp at or before `t`.
proof fn lemma_spec_push_stamps(
    items: Seq<(u64, Entity)>,
    stamp: u64,
    e: Entity,
    mode: EntitySetMode,
    t: u64,
)
    requires
        stamps_at_or_before(items, t),
        stamp <= t,
    ensures
        stamps_at_or_before(spec_push(items, stamp, e, mode), t),
{
    let out = spec_push(items, stamp, e, mode);
    match mode {
        EntitySetMode::FIFO => {
            assert forall|j: int| 0 <= j < out.len() implies (#[trigger] out[j]).0 <= t by {
                if j > 0 {
                    assert(out[j] == items[j - 1]);
                }
            }
        },
        EntitySetMode::LIFO => {},
        EntitySetMode::PRIORITY => {
            let k = prio_slot(items, prio_rank(e@.priority));
            crate::entity_set::lemma_prio_slot_in_range(items, prio_rank(e@.priority));
            assert forall|j: int| 0 <= j < out.len() implies (#[trigger] out[j]).0 <= t by {
                if j < k {
                    assert(out[j] == items[j]);
                } else if j > k {
                    assert(out[j] == items[j - 1]);
                }
            }
        },
    }
}

/// The virtual-clock kernel: future-event list, process registry,
/// process-finish queue, managed entity sets and resources, analytics tick,
/// and the dispatch decision.
///
/// The scheduler is an explicit value: callbacks receive access to it from
/// the host loop instead of reaching for an ambient instance, and managed
/// entity sets and resources are addressed through the `usize` handles that
/// `manage_entity_set` and `manage_resource` hand out.
pub struct Scheduler {
    now: u64,
    last_analytics: u64,
    next_seq: u64,
    mid_event_step: bool,
    event_queue: Vec<(u64, u64, Event)>,
    process_start_queue: Vec<(u64, u64, Process)>,
    process_finish_queue: Vec<(u64, u64, u128)>,
    running: Vec<Process>,
    entity_sets: Vec<EntitySet>,
    resources: Vec<Resource>,
}

/// The mathematical image of a [`Scheduler`].
pub struct SchedulerModel {
    pub now: u64,
    pub last_analytics: u64,
    pub next_seq: u64,
    pub mid_event_step: bool,
    pub events: Seq<(u64, u64, Event)>,
    pub starts: Seq<(u64, u64, Process)>,
    pub finishes: Seq<(u64, u64, u128)>,
    pub running: Seq<Process>,
    pub sets: Seq<EntitySet>,
    pub resources: Seq<Resource>,
}

impl View for Scheduler {
    type V = SchedulerModel;

    closed spec fn view(&self) -> SchedulerModel {
        SchedulerModel {
            now: self.now,
            last_analytics: self.last_analytics,
            next_seq: self.next_seq,
            mid_event_step: self.mid_event_step,
            events: self.event_queue@,
            starts: self.process_start_queue@,
            finishes: self.process_finish_queue@,
            running: self.running@,
            sets: self.entity_sets@,
            resources: self.resources@,
        }
    }
}

impl SchedulerModel {
    /// The clock invariants the kernel maintains: the analytics clock moves
    /// in step with `now`, the three queues are dispatch-sorted with fresh
    /// tie-break numbers, no pending event or finish marker is overdue,
    /// registered processes have distinct identifiers, every pending finish
    /// marker names a registered process, and every managed set and resource
    /// is well-formed with no insertion stamp in the future.
    pub open spec fn wf(self) -> bool {
        &&& self.last_analytics == self.now
        &&& queue_sorted(self.events)
        &&& queue_sorted(self.starts)
        &&& queue_sorted(self.finishes)
        &&& times_at_or_after(self.events, self.now)
        &&& times_at_or_after(self.finishes, self.now)
        &&& seqs_below(self.events, self.next_seq)
        &&& seqs_below(self.starts, self.next_seq)
        &&& seqs_below(self.finishes, self.next_seq)
        &&& pids_distinct(self.running)
        &&& (forall|k: int|
            0 <= k < self.finishes.len() ==> contains_pid(
                self.running,
                (#[trigger] self.finishes[k]).2,
            ))
        &&& (forall|k: int|
            0 <= k < self.sets.len() ==> (#[trigger] self.sets[k])@.wf() && stamps_at_or_before(
                self.sets[k]@.items,
                self.now,
            ))
        &&& (forall|k: int| 0 <= k < self.resources.len() ==> (#[trigger] self.resources[k])@.wf())
    }
}

impl Scheduler {
    /// A fresh scheduler: the clock at zero, nothing scheduled, nothing
    /// registered, nothing managed.
    pub fn new() -> (s: Scheduler)
        ensures
            s@.wf(),
            s@.now == 0,
            s@.last_analytics == 0,
            s@.next_seq == 0,
            !s@.mid_event_step,
            s@.events.len() == 0,
            s@.starts.len() == 0,
            s@.finishes.len() == 0,
            s@.running.len() == 0,
            s@.sets.len() == 0,
            s@.resources.len() == 0,
    {
        Scheduler {
            now: 0,
            last_analytics: 0,
            next_seq: 0,
            mid_event_step: false,
            event_queue: Vec::new(),
            process_start_queue: Vec::new(),
            process_finish_queue: Vec::new(),
            running: Vec::new(),
            entity_sets: Vec::new(),
            resources: Vec::new(),
        }
    }

    /// The current virtual time.
    pub fn time(&self) -> (r: u64)
        ensures
            r == self@.now,
    {
        self.now
    }

    /// Schedule an event at the absolute virtual time `schedule_time`, which
    /// must not lie in the past.
    pub fn schedule_at(&mut self, event: Event, schedule_time: u64)
        requires
            old(self)@.wf(),
            schedule_time >= old(self)@.now,
            old(self)@.next_seq < u64::MAX,
        ensures
            final(self)@.wf(),
            final(self)@ == (SchedulerModel {
                events: queue_insert(
                    old(self)@.events,
                    schedule_time,
                    old(self)@.next_seq,
                    event,
                ),
                next_seq: (old(self)@.next_seq + 1) as u64,
                ..old(self)@
            }),
    {
        proof {
            lemma_queue_insert_bounds(
                self@.events,
                schedule_time,
                self.next_seq,
                event,
                self.now,
                (self.next_seq + 1) as u64,
            );
        }
        fel_insert(&mut self.event_queue, schedule_time, self.next_seq, event);
        self.next_seq = self.next_seq + 1;
    }

    /// Schedule an event at the current virtual time.
    pub fn schedule_now(&mut self, event: Event)
        requires
            old(self)@.wf(),
            old(self)@.next_seq < u64::MAX,
        ensures
            final(self)@.wf(),
            final(self)@ == (SchedulerModel {
                events: queue_insert(
                    old(self)@.events,
                    old(self)@.now,
                    old(self)@.next_seq,
                    event,
                ),
                next_seq: (old(self)@.next_seq + 1) as u64,
                ..old(self)@
            }),
    {
        let t = self.now;
        self.schedule_at(event, t);
    }

    /// Schedule an event `time_to_event` ticks from now.
    pub fn schedule_in(&mut self, event: Event, time_to_event: u64)
        requires
            old(self)@.wf(),
            old(self)@.now + time_to_event <= u64::MAX,
            old(self)@.next_seq < u64::MAX,
        ensures
            final(self)@.wf(),
            final(self)@ == (SchedulerModel {
                events: queue_insert(
                    old(self)@.events,
                    (old(self)@.now + time_to_event) as u64,
                    old(self)@.next_seq,
                    event,
                ),
                next_seq: (old(self)@.next_seq + 1) as u64,
                ..old(self)@
            }),
    {
        let t = self.now + time_to_event;
        self.schedule_at(event, t);
    }

    /// Enter a process into the running registry right away. A process with
    /// the same identifier is replaced; otherwise the newcomer joins at the
    /// end of the registry's iteration order.
    pub fn start_process_now(&mut self, process: Process)
        requires
            old(self)@.wf(),
        ensures
            final(self)@.wf(),
            final(self)@ == (SchedulerModel {
                running: registry_insert(old(self)@.running, process),
                ..old(self)@
            }),
    {
        proof {
            lemma_registry_insert_props(self@.running, process);
        }
        registry_put(&mut self.running, process);
    }

    /// Stage a process to begin running at the absolute virtual time
    /// `schedule_time`, which must not lie in the past.
    pub fn start_process_at(&mut self, process: Process, schedule_time: u64)
        requires
            old(self)@.wf(),
            schedule_time >= old(self)@.now,
            old(self)@.next_seq < u64::MAX,
        ensures
            final(self)@.wf(),
            final(self)@ == (SchedulerModel {
                starts: queue_insert(
                    old(self)@.starts,
                    schedule_time,
                    old(self)@.next_seq,
                    process,
                ),
                next_seq: (old(self)@.next_seq + 1) as u64,
                ..old(self)@
            }),
    {
        proof {
            lemma_queue_insert_bounds(
                self@.starts,
                schedule_time,
                self.next_seq,
                process,
                0,
                (self.next_seq + 1) as u64,
            );
        }
        fel_insert(&mut self.process_start_queue, schedule_time, self.next_seq, process);
        self.next_seq = self.next_seq + 1;
    }

    /// Stage a process to begin running `time_to_process` ticks from now.
    pub fn start_process_in(&mut self, process: Process, time_to_process: u64)
        requires
            old(self)@.wf(),
            old(self)@.now + time_to_process <= u64::MAX,
            old(self)@.next_seq < u64::MAX,
        ensures
            final(self)@.wf(),
            final(self)@ == (SchedulerModel {
                starts: queue_insert(
                    old(self)@.starts,
                    (old(self)@.now + time_to_process) as u64,
                    old(self)@.next_seq,
                    process,
                ),
                next_seq: (old(self)@.next_seq + 1) as u64,
                ..old(self)@
            }),
    {
        let t = self.now + time_to_process;
        self.start_process_at(process, t);
    }

    /// How many processes the running registry holds.
    pub fn n_running(&self) -> (r: usize)
        ensures
            r == self@.running.len(),
    {
        self.running.len()
    }

    /// The identifiers of the running processes, in the registry's iteration
    /// order: the order the host samples durations in during an event step.
    pub fn running_pids(&self) -> (r: Vec<u128>)
        ensures
            r@.len() == self@.running.len(),
            forall|i: int| 0 <= i < r@.len() ==> r@[i] == (#[trigger] self@.running[i])@.pid,
    {
        let mut out: Vec<u128> = Vec::new();
        let mut i: usize = 0;
        while i < self.running.len()
            invariant
                0 <= i <= self@.running.len(),
                out@.len() == i,
                forall|j: int| 0 <= j < i ==> out@[j] == (#[trigger] self@.running[j])@.pid,
            decreases self@.running.len() - i,
        {
            out.push(self.running[i].pid());
            i = i + 1;
        }
        out
    }

    /// Hand an entity set to the scheduler to own and tick; the returned
    /// handle addresses it from now on.
    pub fn manage_entity_set(&mut self, entity_set: EntitySet) -> (handle: usize)
        requires
            old(self)@.wf(),
            entity_set@.wf(),
            stamps_at_or_before(entity_set@.items, old(self)@.now),
        ensures
            final(self)@.wf(),
            handle == old(self)@.sets.len(),
            final(self)@ == (SchedulerModel {
                sets: old(self)@.sets.push(entity_set),
                ..old(self)@
            }),
    {
        let handle = self.entity_sets.len();
        self.entity_sets.push(entity_set);
        handle
    }

    /// Hand a resource to the scheduler to own and tick; the returned handle
    /// addresses it from now on.
    pub fn manage_resource(&mut self, resource: Resource) -> (handle: usize)
        requires
            old(self)@.wf(),
            resource@.wf(),
        ensures
            final(self)@.wf(),
            handle == old(self)@.resources.len(),
            final(self)@ == (SchedulerModel {
                resources: old(self)@.resources.push(resource),
                ..old(self)@
            }),
    {
        let handle = self.resources.len();
        self.resources.push(resource);
        handle
    }

    /// Push an entity into a managed set, stamping it with the current
    /// virtual time. Succeeds exactly when the set is not full.
    pub fn set_push(&mut self, handle: usize, entity: Entity) -> (r: Result<(), SdmError>)
        requires
            old(self)@.wf(),
            handle < old(self)@.sets.len(),
        ensures
            final(self)@.wf(),
            final(self)@ == (SchedulerModel { sets: final(self)@.sets, ..old(self)@ }),
            final(self)@.sets.len() == old(self)@.sets.len(),
            forall|k: int|
                0 <= k < old(self)@.sets.len() && k != handle ==> final(self)@.sets[k] == old(self)@.sets[k],
            old(self)@.sets[handle as int]@.is_full() ==> r == Err::<(), SdmError>(
                SdmError::CapacityExceeded,
            ) && final(self)@.sets[handle as int]@ == old(self)@.sets[handle as int]@,
            !old(self)@.sets[handle as int]@.is_full() ==> r == Ok::<(), SdmError>(()) && final(self)@.sets[handle as int]@ == (EntitySetModel {
                items: spec_push(
                    old(self)@.sets[handle as int]@.items,
                    old(self)@.now,
                    entity,
                    old(self)@.sets[handle as int]@.mode,
                ),
                ..old(self)@.sets[handle as int]@
            }),
    {
        let ghost pre = self@;
        let now = self.now;
        let r = self.entity_sets[handle].push(entity, now);
        proof {
            if !pre.sets[handle as int]@.is_full() {
                lemma_spec_push_stamps(
                    pre.sets[handle as int]@.items,
                    pre.now,
                    entity,
                    pre.sets[handle as int]@.mode,
                    pre.now,
                );
            }
        }
        r
    }

    /// Pop the next-to-serve entity from a managed set; `None` exactly when
    /// the set is empty.
    pub fn set_pop(&mut self, handle: usize) -> (r: Option<Entity>)
        requires
            old(self)@.wf(),
            handle < old(self)@.sets.len(),
        ensures
            final(self)@.wf(),
            final(self)@ == (SchedulerModel { sets: final(self)@.sets, ..old(self)@ }),
            final(self)@.sets.len() == old(self)@.sets.len(),
            forall|k: int|
                0 <= k < old(self)@.sets.len() && k != handle ==> final(self)@.sets[k] == old(self)@.sets[k],
            old(self)@.sets[handle as int]@.items.len() == 0 ==> r is None && final(self)@.sets[handle as int]@ == old(self)@.sets[handle as int]@,
            old(self)@.sets[handle as int]@.items.len() > 0 ==> (r matches Some(e) && e == old(self)@.sets[handle as int]@.items.last().1 && final(self)@.sets[handle as int]@ == (
            EntitySetModel {
                items: old(self)@.sets[handle as int]@.items.drop_last(),
                ..old(self)@.sets[handle as int]@
            })),
    {
        self.entity_sets[handle].pop()
    }

    /// Remove the first entity with the given identifier from a managed set;
    /// `None` when no held entity matches.
    pub fn set_remove(&mut self, handle: usize, id: u128) -> (r: Option<Entity>)
        requires
            old(self)@.wf(),
            handle < old(self)@.sets.len(),
        ensures
            final(self)@.wf(),
            final(self)@ == (SchedulerModel { sets: final(self)@.sets, ..old(self)@ }),
            final(self)@.sets.len() == old(self)@.sets.len(),
            forall|k: int|
                0 <= k < old(self)@.sets.len() && k != handle ==> final(self)@.sets[k] == old(self)@.sets[k],
            !crate::entity_set::contains_id(old(self)@.sets[handle as int]@.items, id) ==> r
                is None && final(self)@.sets[handle as int]@ == old(self)@.sets[handle as int]@,
            crate::entity_set::contains_id(old(self)@.sets[handle as int]@.items, id) ==> (r
                matches Some(e) && e@.id == id && final(self)@.sets[handle as int]@ == (
            EntitySetModel {
                items: old(self)@.sets[handle as int]@.items.remove(
                    crate::entity_set::find_id(old(self)@.sets[handle as int]@.items, id),
                ),
                ..old(self)@.sets[handle as int]@
            })),
    {
        let ghost pre = self@;
        let r = self.entity_sets[handle].remove(id);
        proof {
            let items = pre.sets[handle as int]@.items;
            if crate::entity_set::contains_id(items, id) {
                crate::entity_set::lemma_find_id_in_range(items, id);
                let k = crate::entity_set::find_id(items, id);
                let out = items.remove(k);
                assert forall|j: int| 0 <= j < out.len() implies (#[trigger] out[j]).0
                    <= pre.now by {
                    if j < k {
                        assert(out[j] == items[j]);
                    } else {
                        assert(out[j] == items[j + 1]);
                    }
                }
            }
        }
        r
    }

    /// Take tokens from a managed resource; fails with
    /// `InsufficientResource` exactly when fewer than `quantity` are free.
    pub fn resource_allocate(&mut self, handle: usize, quantity: u32) -> (r: Result<
        (),
        SdmError,
    >)
        requires
            old(self)@.wf(),
            handle < old(self)@.resources.len(),
        ensures
            final(self)@.wf(),
            final(self)@ == (SchedulerModel { resources: final(self)@.resources, ..old(self)@ }),
            final(self)@.resources.len() == old(self)@.resources.len(),
            forall|k: int|
                0 <= k < old(self)@.resources.len() && k != handle ==> final(self)@.resources[k]
                    == old(self)@.resources[k],
            quantity <= old(self)@.resources[handle as int]@.free ==> r == Ok::<(), SdmError>(())
                && final(self)@.resources[handle as int]@ == old(self)@.resources[handle as int]@.allocated(quantity),
            quantity > old(self)@.resources[handle as int]@.free ==> r == Err::<(), SdmError>(
                SdmError::InsufficientResource,
            ) && final(self)@.resources[handle as int]@ == old(self)@.resources[handle as int]@,
    {
        self.resources[handle].allocate(quantity)
    }

    /// Hand tokens back to a managed resource; fails with `OverRelease`
    /// exactly when the pool has no room for them.
    pub fn resource_release(&mut self, handle: usize, quantity: u32) -> (r: Result<(), SdmError>)
        requires
            old(self)@.wf(),
            handle < old(self)@.resources.len(),
        ensures
            final(self)@.wf(),
            final(self)@ == (SchedulerModel { resources: final(self)@.resources, ..old(self)@ }),
            final(self)@.resources.len() == old(self)@.resources.len(),
            forall|k: int|
                0 <= k < old(self)@.resources.len() && k != handle ==> final(self)@.resources[k]
                    == old(self)@.resources[k],
            old(self)@.resources[handle as int]@.free + quantity <= old(self)@.resources[handle as int]@.capacity ==> r == Ok::<(), SdmError>(()) && final(self)@.resources[handle as int]@ == old(self)@.resources[handle as int]@.released(
                quantity,
            ),
            old(self)@.resources[handle as int]@.free + quantity > old(self)@.resources[handle as int]@.capacity ==> r == Err::<(), SdmError>(
                SdmError::OverRelease,
            ) && final(self)@.resources[handle as int]@ == old(self)@.resources[handle as int]@,
    {
        self.resources[handle].release(quantity)
    }

    /// Read access to a managed entity set.
    pub fn entity_set(&self, handle: usize) -> (r: &EntitySet)
        requires
            handle < self@.sets.len(),
        ensures
            *r == self@.sets[handle as int],
    {
        &self.entity_sets[handle]
    }

    /// Read access to a managed resource.
    pub fn resource(&self, handle: usize) -> (r: &Resource)
        requires
            handle < self@.resources.len(),
        ensures
            *r == self@.resources[handle as int],
    {
        &self.resources[handle]
    }
}

/// The analytics occupancy sum after `n` ticks of a set holding `occupancy`
/// entities throughout.
pub open spec fn ticked_avg(avg: u64, occupancy: u64, n: nat) -> u64
    decreases n,
{
    if n == 0 {
        avg
    } else {
        sat_add_u64(ticked_avg(avg, occupancy, (n - 1) as nat), occupancy)
    }
}

/// The observed maximum residence time after `n` ticks, the ticks running at
/// virtual times `la + 1` through `la + n` over an unchanged set.
pub open spec fn ticked_max_n(cur: u64, items: Seq<(u64, Entity)>, la: u64, n: nat) -> u64
    decreases n,
{
    if n == 0 {
        cur
    } else {
        ticked_max(ticked_max_n(cur, items, la, (n - 1) as nat), items, (la + n) as u64)
    }
}

/// A resource after `n` analytics ticks.
pub open spec fn res_ticked_n(m: ResourceModel, n: nat) -> ResourceModel
    decreases n,
{
    if n == 0 {
        m
    } else {
        res_ticked_n(m, (n - 1) as nat).ticked()
    }
}

/// A set's statistics after the analytics clock catches up from `la` to `t`.
pub open spec fn set_after_analytics(s: EntitySetModel, la: u64, t: u64) -> EntitySetModel {
    EntitySetModel {
        average_size_sum: ticked_avg(s.average_size_sum, s.items.len() as u64, (t - la) as nat),
        max_time_in_set: ticked_max_n(s.max_time_in_set, s.items, la, (t - la) as nat),
        ..s
    }
}

/// A resource's statistics after the analytics clock catches up from `la` to
/// `t`.
pub open spec fn res_after_analytics(m: ResourceModel, la: u64, t: u64) -> ResourceModel {
    res_ticked_n(m, (t - la) as nat)
}

/// `n` analytics ticks leave everything but a resource's busy time alone.
proof fn lemma_res_ticked_n_frame(m: ResourceModel, n: nat)
    ensures
        res_ticked_n(m, n) == (ResourceModel { busy_time: res_ticked_n(m, n).busy_time, ..m }),
    decreases n,
{
    if n == 0 {
    } else {
        lemma_res_ticked_n_frame(m, (n - 1) as nat);
    }
}

/// The start queue and the registry after every process staged to start at
/// or before `t` has moved, in dispatch order, into the registry.
pub open spec fn drained_starts(
    starts: Seq<(u64, u64, Process)>,
    running: Seq<Process>,
    t: u64,
) -> (Seq<(u64, u64, Process)>, Seq<Process>)
    decreases starts.len(),
{
    if starts.len() == 0 || starts.last().0 > t {
        (starts, running)
    } else {
        drained_starts(starts.drop_last(), registry_insert(running, starts.last().2), t)
    }
}

impl Scheduler {
    /// One analytics tick at virtual time `new_now` on every managed set and
    /// resource.
    fn tick_all(&mut self, new_now: u64)
        requires
            forall|k: int|
                0 <= k < old(self)@.sets.len() ==> (#[trigger] old(self)@.sets[k])@.wf()
                    && stamps_at_or_before(old(self)@.sets[k]@.items, new_now),
        ensures
            final(self)@ == (SchedulerModel {
                sets: final(self)@.sets,
                resources: final(self)@.resources,
                ..old(self)@
            }),
            final(self)@.sets.len() == old(self)@.sets.len(),
            final(self)@.resources.len() == old(self)@.resources.len(),
            forall|k: int|
                0 <= k < old(self)@.sets.len() ==> (#[trigger] final(self)@.sets[k])@ == (
                EntitySetModel {
                    average_size_sum: sat_add_u64(
                        old(self)@.sets[k]@.average_size_sum,
                        old(self)@.sets[k]@.items.len() as u64,
                    ),
                    max_time_in_set: ticked_max(
                        old(self)@.sets[k]@.max_time_in_set,
                        old(self)@.sets[k]@.items,
                        new_now,
                    ),
                    ..old(self)@.sets[k]@
                }),
            forall|k: int|
                0 <= k < old(self)@.resources.len() ==> (#[trigger] final(self)@.resources[k])@
                    == old(self)@.resources[k]@.ticked(),
    {
        let ghost m0 = self@;
        let mut j: usize = 0;
        while j < self.entity_sets.len()
            invariant
                0 <= j <= m0.sets.len(),
                forall|k: int|
                    0 <= k < m0.sets.len() ==> (#[trigger] m0.sets[k])@.wf()
                        && stamps_at_or_before(m0.sets[k]@.items, new_now),
                self@ == (SchedulerModel { sets: self@.sets, ..m0 }),
                self@.sets.len() == m0.sets.len(),
                forall|k: int|
                    j <= k < m0.sets.len() ==> #[trigger] self@.sets[k] == m0.sets[k],
                forall|k: int|
                    0 <= k < j ==> (#[trigger] self@.sets[k])@ == (EntitySetModel {
                        average_size_sum: sat_add_u64(
                            m0.sets[k]@.average_size_sum,
                            m0.sets[k]@.items.len() as u64,
                        ),
                        max_time_in_set: ticked_max(
                            m0.sets[k]@.max_time_in_set,
                            m0.sets[k]@.items,
                            new_now,
                        ),
                        ..m0.sets[k]@
                    }),
            decreases m0.sets.len() - j,
        {
            self.entity_sets[j].update_analytics(new_now);
            j = j + 1;
        }
        let ghost m1 = self@;
        let mut j: usize = 0;
        while j < self.resources.len()
            invariant
                0 <= j <= m1.resources.len(),
                self@ == (SchedulerModel { resources: self@.resources, ..m1 }),
                self@.resources.len() == m1.resources.len(),
                forall|k: int|
                    j <= k < m1.resources.len() ==> #[trigger] self@.resources[k]
                        == m1.resources[k],
                forall|k: int|
                    0 <= k < j ==> (#[trigger] self@.resources[k])@ == m1.resources[k]@.ticked(),
            decreases m1.resources.len() - j,
        {
            self.resources[j].update_analytics();
            j = j + 1;
        }
    }

    /// Catch the analytics clock up to `t_next`: one tick per virtual-time
    /// unit, each advancing the clock and folding statistics into every
    /// managed set and resource.
    fn run_analytics(&mut self, t_next: u64)
        requires
            old(self)@.wf(),
            t_next >= old(self)@.now,
            times_at_or_after(old(self)@.events, t_next),
            times_at_or_after(old(self)@.finishes, t_next),
        ensures
            final(self)@.wf(),
            final(self)@.now >= old(self)@.now,
            final(self)@.now == t_next,
            final(self)@ == (SchedulerModel {
                now: final(self)@.now,
                last_analytics: t_next,
                sets: final(self)@.sets,
                resources: final(self)@.resources,
                ..old(self)@
            }),
            final(self)@.sets.len() == old(self)@.sets.len(),
            final(self)@.resources.len() == old(self)@.resources.len(),
            forall|k: int|
                0 <= k < old(self)@.sets.len() ==> (#[trigger] final(self)@.sets[k])@
                    == set_after_analytics(
                    old(self)@.sets[k]@,
                    old(self)@.last_analytics,
                    t_next,
                ),
            forall|k: int|
                0 <= k < old(self)@.resources.len() ==> (#[trigger] final(self)@.resources[k])@
                    == res_after_analytics(old(self)@.resources[k]@, old(self)@.last_analytics, t_next),
    {
        let ghost m0 = self@;
        while self.last_analytics < t_next
            invariant
                m0.wf(),
                t_next >= m0.now,
                times_at_or_after(m0.events, t_next),
                times_at_or_after(m0.finishes, t_next),
                m0.last_analytics <= self@.last_analytics <= t_next,
                self@.now == self@.last_analytics,
                self@ == (SchedulerModel {
                    now: self@.now,
                    last_analytics: self@.last_analytics,
                    sets: self@.sets,
                    resources: self@.resources,
                    ..m0
                }),
                self@.sets.len() == m0.sets.len(),
                self@.resources.len() == m0.resources.len(),
                forall|k: int|
                    0 <= k < m0.sets.len() ==> (#[trigger] self@.sets[k])@ == set_after_analytics(
                        m0.sets[k]@,
                        m0.last_analytics,
                        self@.last_analytics,
                    ),
                forall|k: int|
                    0 <= k < m0.resources.len() ==> (#[trigger] self@.resources[k])@
                        == res_after_analytics(
                        m0.resources[k]@,
                        m0.last_analytics,
                        self@.last_analytics,
                    ),
            decreases t_next - self@.last_analytics,
        {
            let ghost la_pre = self@.last_analytics;
            let new_now = self.last_analytics + ANALYTICS_REFRESH;
            self.now = new_now;
            proof {
                assert forall|k: int| 0 <= k < self@.sets.len() implies (
                #[trigger] self@.sets[k])@.wf() && stamps_at_or_before(
                    self@.sets[k]@.items,
                    new_now,
                ) by {
                    assert(m0.sets[k]@.wf());
                    assert(stamps_at_or_before(m0.sets[k]@.items, m0.now));
                    assert(self@.sets[k]@.items == m0.sets[k]@.items);
                    assert(self@.sets[k]@.mode == m0.sets[k]@.mode);
                    assert(self@.sets[k]@.max_size == m0.sets[k]@.max_size);
                }
            }
            self.tick_all(new_now);
            self.last_analytics = new_now;
            proof {
                let n_pre = (la_pre - m0.last_analytics) as nat;
                assert forall|k: int| 0 <= k < m0.sets.len() implies (
                #[trigger] self@.sets[k])@ == set_after_analytics(
                    m0.sets[k]@,
                    m0.last_analytics,
                    self@.last_analytics,
                ) by {
                    assert(ticked_avg(
                        m0.sets[k]@.average_size_sum,
                        m0.sets[k]@.items.len() as u64,
                        (n_pre + 1) as nat,
                    ) == sat_add_u64(
                        ticked_avg(
                            m0.sets[k]@.average_size_sum,
                            m0.sets[k]@.items.len() as u64,
                            n_pre,
                        ),
                        m0.sets[k]@.items.len() as u64,
                    ));
                    assert(ticked_max_n(
                        m0.sets[k]@.max_time_in_set,
                        m0.sets[k]@.items,
                        m0.last_analytics,
                        (n_pre + 1) as nat,
                    ) == ticked_max(
                        ticked_max_n(
                            m0.sets[k]@.max_time_in_set,
                            m0.sets[k]@.items,
                            m0.last_analytics,
                            n_pre,
                        ),
                        m0.sets[k]@.items,
                        (m0.last_analytics + n_pre + 1) as u64,
                    ));
                }
                assert forall|k: int| 0 <= k < m0.resources.len() implies (
                #[trigger] self@.resources[k])@ == res_after_analytics(
                    m0.resources[k]@,
                    m0.last_analytics,
                    self@.last_analytics,
                ) by {
                    assert(res_ticked_n(m0.resources[k]@, (n_pre + 1) as nat) == res_ticked_n(
                        m0.resources[k]@,
                        n_pre,
                    ).ticked());
                }
            }
        }
        proof {
            let m1 = self@;
            assert forall|k: int| 0 <= k < m1.sets.len() implies (#[trigger] m1.sets[k])@.wf()
                && stamps_at_or_before(m1.sets[k]@.items, m1.now) by {
                assert(m0.sets[k]@.wf());
                assert(stamps_at_or_before(m0.sets[k]@.items, m0.now));
                assert(m1.sets[k]@.items == m0.sets[k]@.items);
                assert(m1.sets[k]@.mode == m0.sets[k]@.mode);
                assert(m1.sets[k]@.max_size == m0.sets[k]@.max_size);
            }
            assert forall|k: int| 0 <= k < m1.resources.len() implies (
            #[trigger] m1.resources[k])@.wf() by {
                lemma_res_ticked_n_frame(
                    m0.resources[k]@,
                    (m1.last_analytics - m0.last_analytics) as nat,
                );
                assert(m0.resources[k]@.wf());
            }
        }
    }

    /// Whether the start queue's next entry is due at or before `t`.
    fn start_due(&self, t: u64) -> (r: bool)
        ensures
            r == (self@.starts.len() > 0 && self@.starts.last().0 <= t),
    {
        let n = self.process_start_queue.len();
        if n == 0 {
            false
        } else {
            self.process_start_queue[n - 1].0 <= t
        }
    }

    /// Move every process staged to start at or before `t` into the running
    /// registry, in dispatch order.
    fn drain_start_queue(&mut self, t: u64)
        requires
            old(self)@.wf(),
        ensures
            final(self)@.wf(),
            final(self)@ == (SchedulerModel {
                starts: drained_starts(old(self)@.starts, old(self)@.running, t).0,
                running: drained_starts(old(self)@.starts, old(self)@.running, t).1,
                ..old(self)@
            }),
    {
        let ghost m0 = self@;
        while self.start_due(t)
            invariant
                m0.wf(),
                queue_sorted(self@.starts),
                seqs_below(self@.starts, m0.next_seq),
                pids_distinct(self@.running),
                forall|k: int|
                    0 <= k < self@.finishes.len() ==> contains_pid(
                        self@.running,
                        (#[trigger] self@.finishes[k]).2,
                    ),
                drained_starts(m0.starts, m0.running, t) == drained_starts(
                    self@.starts,
                    self@.running,
                    t,
                ),
                self@ == (SchedulerModel {
                    starts: self@.starts,
                    running: self@.running,
                    ..m0
                }),
            decreases self@.starts.len(),
        {
            let ghost pre_starts = self@.starts;
            let ghost pre_running = self@.running;
            let ghost pre_finishes = self@.finishes;
            let entry = self.process_start_queue.pop().unwrap();
            let ghost moved = entry.2;
            proof {
                lemma_registry_insert_props(pre_running, moved);
            }
            registry_put(&mut self.running, entry.2);
            proof {
                assert(self@.running == registry_insert(pre_running, moved));
                assert forall|k: int| 0 <= k < self@.finishes.len() implies contains_pid(
                    self@.running,
                    (#[trigger] self@.finishes[k]).2,
                ) by {
                    assert(self@.finishes == pre_finishes);
                    assert(contains_pid(pre_running, pre_finishes[k].2));
                }
            }
        }
    }
}

/// What `simulate_one_step` dispatched, and what the host owes in return.
pub enum Dispatch {
    /// Both the event queue and the process-finish queue are empty: the
    /// simulation is over and nothing was dispatched.
    Done,
    /// An event fired. The host runs the event's callback, then runs
    /// `on_start` of every running process, sampling one duration each, and
    /// hands the durations to `complete_event_step` in registry order.
    Event(Event),
    /// A process-finish marker fired. The host runs the `on_end` hook of the
    /// process with this identifier; the process stays registered.
    ProcessEnd(u128),
}

/// The virtual time of the next dispatch: the earlier of the two queue
/// heads. Meaningful only when at least one queue is non-empty.
pub open spec fn next_time(m: SchedulerModel) -> u64 {
    if m.finishes.len() > 0 && m.events.len() > 0 {
        if m.finishes.last().0 <= m.events.last().0 {
            m.finishes.last().0
        } else {
            m.events.last().0
        }
    } else if m.finishes.len() > 0 {
        m.finishes.last().0
    } else {
        m.events.last().0
    }
}

/// Whether the next dispatch is a process finish: it is whenever a finish
/// marker is due no later than every pending event. At equal time the
/// process finish takes precedence over the event.
pub open spec fn proc_wins(m: SchedulerModel) -> bool {
    m.finishes.len() > 0 && (m.events.len() == 0 || m.finishes.last().0 <= m.events.last().0)
}

/// In a dispatch-sorted queue every entry is due at or after the tail.
proof fn lemma_sorted_tail_min<T>(q: Seq<(u64, u64, T)>)
    requires
        queue_sorted(q),
        q.len() > 0,
    ensures
        times_at_or_after(q, q.last().0),
{
    assert forall|i: int| 0 <= i < q.len() implies (#[trigger] q[i]).0 >= q.last().0 by {
        if i < q.len() - 1 {
            assert(key_le(q[q.len() - 1], q[i]));
        }
    }
}

/// The finish queue after one finish marker per running process, in registry
/// order, has been enqueued: process `i` finishes at `now + durations[i]`
/// and carries the tie-break number `seq0 + i`.
pub open spec fn pushed_markers(
    fq: Seq<(u64, u64, u128)>,
    now: u64,
    seq0: u64,
    running: Seq<Process>,
    durations: Seq<u64>,
) -> Seq<(u64, u64, u128)>
    decreases running.len(),
{
    if running.len() == 0 {
        fq
    } else {
        pushed_markers(
            queue_insert(fq, (now + durations[0]) as u64, seq0, running[0]@.pid),
            now,
            (seq0 + 1) as u64,
            running.drop_first(),
            durations.drop_first(),
        )
    }
}

impl Scheduler {
    /// Advance the simulation by one dispatch, or report that it is over.
    ///
    /// When either queue holds something, the step: catches the analytics
    /// clock up to the next dispatch time, moves every process staged to
    /// start by then into the running registry, advances `now` to the next
    /// dispatch time, and pops the winning entry — the process finish when
    /// one is due no later than every pending event (at equal time the
    /// process finish dispatches first), else the earliest event, ties among
    /// events broken in the order they were scheduled. A popped entry's
    /// scheduled time equals `now` after the pop, and `now` never decreases.
    pub fn simulate_one_step(&mut self) -> (r: Dispatch)
        requires
            old(self)@.wf(),
            !old(self)@.mid_event_step,
        ensures
            final(self)@.wf(),
            final(self)@.now >= old(self)@.now,
            (old(self)@.events.len() == 0 && old(self)@.finishes.len() == 0) ==> (r
                matches Dispatch::Done && final(self)@ == old(self)@),
            (old(self)@.events.len() > 0 || old(self)@.finishes.len() > 0) ==> ({
                &&& final(self)@.now == next_time(old(self)@)
                &&& final(self)@.last_analytics == next_time(old(self)@)
                &&& final(self)@.next_seq == old(self)@.next_seq
                &&& final(self)@.sets.len() == old(self)@.sets.len()
                &&& final(self)@.resources.len() == old(self)@.resources.len()
                &&& (forall|k: int|
                    0 <= k < old(self)@.sets.len() ==> (#[trigger] final(self)@.sets[k])@
                        == set_after_analytics(
                        old(self)@.sets[k]@,
                        old(self)@.last_analytics,
                        next_time(old(self)@),
                    ))
                &&& (forall|k: int|
                    0 <= k < old(self)@.resources.len() ==> (
                    #[trigger] final(self)@.resources[k])@ == res_after_analytics(
                        old(self)@.resources[k]@,
                        old(self)@.last_analytics,
                        next_time(old(self)@),
                    ))
                &&& final(self)@.starts == drained_starts(
                    old(self)@.starts,
                    old(self)@.running,
                    next_time(old(self)@),
                ).0
                &&& final(self)@.running == drained_starts(
                    old(self)@.starts,
                    old(self)@.running,
                    next_time(old(self)@),
                ).1
                &&& (proc_wins(old(self)@) ==> (r matches Dispatch::ProcessEnd(pid)
                    && pid == old(self)@.finishes.last().2 && contains_pid(
                    final(self)@.running,
                    pid,
                ) && final(self)@.finishes == old(self)@.finishes.drop_last() && final(self)@.events
                    == old(self)@.events && !final(self)@.mid_event_step))
                &&& (!proc_wins(old(self)@) ==> (r matches Dispatch::Event(e) && e == old(
                    self,
                )@.events.last().2 && final(self)@.events == old(self)@.events.drop_last()
                    && final(self)@.finishes == old(self)@.finishes
                    && final(self)@.mid_event_step))
            }),
    {
        let nf = self.process_finish_queue.len();
        let ne = self.event_queue.len();
        if nf == 0 && ne == 0 {
            return Dispatch::Done;
        }
        let t_next: u64 = if nf > 0 && ne > 0 {
            let tf = self.process_finish_queue[nf - 1].0;
            let te = self.event_queue[ne - 1].0;
            if tf <= te {
                tf
            } else {
                te
            }
        } else if nf > 0 {
            self.process_finish_queue[nf - 1].0
        } else {
            self.event_queue[ne - 1].0
        };
        proof {
            if nf > 0 {
                lemma_sorted_tail_min(self@.finishes);
            }
            if ne > 0 {
                lemma_sorted_tail_min(self@.events);
            }
        }
        self.run_analytics(t_next);
        self.drain_start_queue(t_next);
        let take_proc: bool = if self.process_finish_queue.len() == 0 {
            false
        } else if self.event_queue.len() == 0 {
            true
        } else {
            let tf = self.process_finish_queue[self.process_finish_queue.len() - 1].0;
            let te = self.event_queue[self.event_queue.len() - 1].0;
            tf <= te
        };
        if take_proc {
            let entry = self.process_finish_queue.pop().unwrap();
            self.now = entry.0;
            self.last_analytics = entry.0;
            Dispatch::ProcessEnd(entry.2)
        } else {
            let entry = self.event_queue.pop().unwrap();
            self.now = entry.0;
            self.last_analytics = entry.0;
            self.mid_event_step = true;
            Dispatch::Event(entry.2)
        }
    }

    /// Finish an event step: the host has run the fired event's callback and
    /// then `on_start` of each running process, sampling exactly one
    /// duration per process; this enqueues one finish marker per running
    /// process, in registry order, each at `now` plus that process's
    /// sampled duration.
    pub fn complete_event_step(&mut self, durations: &Vec<u64>)
        requires
            old(self)@.wf(),
            old(self)@.mid_event_step,
            durations@.len() == old(self)@.running.len(),
            forall|i: int|
                0 <= i < durations@.len() ==> old(self)@.now + #[trigger] durations@[i]
                    <= u64::MAX,
            old(self)@.next_seq + old(self)@.running.len() <= u64::MAX,
        ensures
            final(self)@.wf(),
            final(self)@ == (SchedulerModel {
                finishes: pushed_markers(
                    old(self)@.finishes,
                    old(self)@.now,
                    old(self)@.next_seq,
                    old(self)@.running,
                    durations@,
                ),
                next_seq: (old(self)@.next_seq + old(self)@.running.len()) as u64,
                mid_event_step: false,
                ..old(self)@
            }),
    {
        let ghost m0 = self@;
        proof {
            assert(m0.running.skip(0) =~= m0.running);
            assert(durations@.skip(0) =~= durations@);
        }
        let n = self.running.len();
        let mut i: usize = 0;
        while i < n
            invariant
                m0.wf(),
                durations@.len() == m0.running.len(),
                n == m0.running.len(),
                forall|j: int|
                    0 <= j < durations@.len() ==> m0.now + #[trigger] durations@[j] <= u64::MAX,
                m0.next_seq + m0.running.len() <= u64::MAX,
                0 <= i <= n,
                self@ == (SchedulerModel {
                    finishes: self@.finishes,
                    next_seq: (m0.next_seq + i) as u64,
                    ..m0
                }),
                queue_sorted(self@.finishes),
                times_at_or_after(self@.finishes, m0.now),
                seqs_below(self@.finishes, self@.next_seq),
                forall|k: int|
                    0 <= k < self@.finishes.len() ==> contains_pid(
                        m0.running,
                        (#[trigger] self@.finishes[k]).2,
                    ),
                pushed_markers(m0.finishes, m0.now, m0.next_seq, m0.running, durations@)
                    == pushed_markers(
                    self@.finishes,
                    m0.now,
                    self@.next_seq,
                    m0.running.skip(i as int),
                    durations@.skip(i as int),
                ),
            decreases n - i,
        {
            let ghost fq_pre = self@.finishes;
            let ghost seq_pre = self@.next_seq;
            let pid = self.running[i].pid();
            let d = durations[i];
            let t = self.now + d;
            proof {
                lemma_queue_insert_bounds(fq_pre, t, seq_pre, pid, m0.now, (seq_pre + 1) as u64);
            }
            fel_insert(&mut self.process_finish_queue, t, self.next_seq, pid);
            self.next_seq = self.next_seq + 1;
            proof {
                assert(self@.finishes == queue_insert(fq_pre, t, seq_pre, pid));
                lemma_queue_slot_props(fq_pre, t);
                let slot = queue_slot(fq_pre, t);
                assert forall|k: int| 0 <= k < self@.finishes.len() implies contains_pid(
                    m0.running,
                    (#[trigger] self@.finishes[k]).2,
                ) by {
                    if k < slot {
                        assert(self@.finishes[k] == fq_pre[k]);
                    } else if k > slot {
                        assert(self@.finishes[k] == fq_pre[k - 1]);
                    } else {
                        assert(self@.finishes[k].2 == m0.running[i as int]@.pid);
                    }
                }
                assert(m0.running.skip(i as int).drop_first() =~= m0.running.skip(i + 1));
                assert(durations@.skip(i as int).drop_first() =~= durations@.skip(i + 1));
                assert(m0.running.skip(i as int)[0] == m0.running[i as int]);
                assert(durations@.skip(i as int)[0] == durations@[i as int]);
            }
            i = i + 1;
        }
        self.mid_event_step = false;
        proof {
            assert(m0.running.skip(n as int) =~= Seq::<Process>::empty());
            assert(durations@.skip(n as int) =~= Seq::<u64>::empty());
        }
    }

    /// Drive the simulation to completion for a model without processes:
    /// repeatedly dispatch until both queues are empty. With nothing
    /// scheduled at all it returns at once, the clock untouched; otherwise
    /// the clock ends on the latest scheduled event time. Models with
    /// processes or with event callbacks are driven by the host loop instead,
    /// which can run the callbacks between steps.
    pub fn simulate(&mut self)
        requires
            old(self)@.wf(),
            !old(self)@.mid_event_step,
            old(self)@.running.len() == 0,
            old(self)@.starts.len() == 0,
        ensures
            final(self)@.wf(),
            !final(self)@.mid_event_step,
            final(self)@.events.len() == 0,
            final(self)@.finishes.len() == 0,
            final(self)@.running.len() == 0,
            final(self)@.now >= old(self)@.now,
            (old(self)@.events.len() == 0 && old(self)@.finishes.len() == 0) ==> final(self)@
                == old(self)@,
            old(self)@.events.len() > 0 ==> final(self)@.now == old(self)@.events[0].0,
    {
        proof {
            if self@.finishes.len() > 0 {
                assert(contains_pid(self@.running, self@.finishes[0].2));
            }
        }
        if self.event_queue.is_empty() && self.process_finish_queue.is_empty() {
            return;
        }
        loop
            invariant
                self@.wf(),
                !self@.mid_event_step,
                self@.running.len() == 0,
                self@.starts.len() == 0,
                self@.finishes.len() == 0,
                self@.now >= old(self)@.now,
                old(self)@.events.len() > 0,
                self@.events.len() > 0 ==> self@.events[0] == old(self)@.events[0],
                self@.events.len() == 0 ==> self@.now == old(self)@.events[0].0,
            decreases self@.events.len(),
        {
            let ghost pre = self@;
            let step = self.simulate_one_step();
            match step {
                Dispatch::Done => {
                    return;
                },
                Dispatch::Event(_) => {
                    proof {
                        if pre.events.len() > 1 {
                            assert(pre.events.drop_last()[0] == pre.events[0]);
                        }
                    }
                    let durations: Vec<u64> = Vec::new();
                    self.complete_event_step(&durations);
                },
                Dispatch::ProcessEnd(_) => {
                    proof {
                        assert(!proc_wins(pre));
                        assert(false);
                    }
                },
            }
        }
    }
}

/// The (finish time, process identifier) pairs of a finish queue, tie-break
/// numbers stripped.
pub open spec fn marker_times(fq: Seq<(u64, u64, u128)>) -> Seq<(u64, u128)> {
    fq.map_values(|e: (u64, u64, u128)| (e.0, e.2))
}

/// Inserting into a sequence inserts into its multiset.
proof fn lemma_insert_to_multiset<A>(s: Seq<A>, i: int, x: A)
    requires
        0 <= i <= s.len(),
    ensures
        s.insert(i, x).to_multiset() == s.to_multiset().insert(x),
{
    broadcast use vstd::seq_lib::group_to_multiset_ensures;

    let out = s.insert(i, x);
    assert(out.remove(i) =~= s);
    assert(out[i] == x);
    assert(out.remove(i).to_multiset() =~= out.to_multiset().remove(out[i]));
    assert(out.contains(x));
    assert(out.to_multiset().count(x) > 0);
    assert(out.to_multiset() =~= s.to_multiset().insert(x));
}

/// Splitting off a sequence's first element splits its multiset.
proof fn lemma_first_to_multiset<A>(s: Seq<A>)
    requires
        s.len() > 0,
    ensures
        s.to_multiset() == s.drop_first().to_multiset().insert(s[0]),
{
    broadcast use vstd::seq_lib::group_to_multiset_ensures;

    assert(s.remove(0) =~= s.drop_first());
    assert(s.remove(0).to_multiset() =~= s.to_multiset().remove(s[0]));
    assert(s.contains(s[0]));
    assert(s.to_multiset().count(s[0]) > 0);
    assert(s.to_multiset() =~= s.drop_first().to_multiset().insert(s[0]));
}

/// After an event step completes, the finish queue has gained exactly one
/// marker per registered process — `(now + durations[i], running[i].pid)`
/// for each `i`, no more and no less — and kept every marker it had.
pub proof fn lemma_event_step_markers(
    fq: Seq<(u64, u64, u128)>,
    now: u64,
    seq0: u64,
    running: Seq<Process>,
    durations: Seq<u64>,
)
    requires
        durations.len() == running.len(),
    ensures
        marker_times(pushed_markers(fq, now, seq0, running, durations)).to_multiset()
            == marker_times(fq).to_multiset().add(
            Seq::new(
                running.len() as nat,
                |i: int| (((now + durations[i]) as u64), running[i]@.pid),
            ).to_multiset(),
        ),
    decreases running.len(),
{
    let fresh = Seq::new(
        running.len() as nat,
        |i: int| (((now + durations[i]) as u64), running[i]@.pid),
    );
    if running.len() == 0 {
        assert(fresh =~= Seq::<(u64, u128)>::empty());
        assert(fresh.to_multiset() =~= Multiset::<(u64, u128)>::empty()) by {
            fresh.to_multiset_ensures();
        }
        assert(marker_times(fq).to_multiset().add(Multiset::<(u64, u128)>::empty())
            =~= marker_times(fq).to_multiset());
    } else {
        let t0 = (now + durations[0]) as u64;
        let pid0 = running[0]@.pid;
        let fq1 = queue_insert(fq, t0, seq0, pid0);
        lemma_event_step_markers(
            fq1,
            now,
            (seq0 + 1) as u64,
            running.drop_first(),
            durations.drop_first(),
        );
        let rest = Seq::new(
            running.drop_first().len() as nat,
            |i: int|
                (
                    ((now + durations.drop_first()[i]) as u64),
                    running.drop_first()[i]@.pid,
                ),
        );
        assert(rest =~= fresh.drop_first());
        lemma_queue_slot_props(fq, t0);
        assert(marker_times(fq1) =~= marker_times(fq).insert(queue_slot(fq, t0), (t0, pid0)))
            by {
            let k = queue_slot(fq, t0);
            assert forall|j: int| 0 <= j < fq1.len() implies marker_times(fq1)[j]
                == marker_times(fq).insert(k, (t0, pid0))[j] by {
                if j < k {
                    assert(fq1[j] == fq[j]);
                } else if j > k {
                    assert(fq1[j] == fq[j - 1]);
                } else {
                    assert(fq1[j] == (t0, seq0, pid0));
                }
            }
        }
        lemma_insert_to_multiset(marker_times(fq), queue_slot(fq, t0), (t0, pid0));
        lemma_first_to_multiset(fresh);
        assert(fresh[0] == (t0, pid0));
        assert(marker_times(pushed_markers(fq, now, seq0, running, durations)).to_multiset()
            == marker_times(fq1).to_multiset().add(fresh.drop_first().to_multiset()));
        assert(marker_times(fq).to_multiset().insert((t0, pid0)).add(
            fresh.drop_first().to_multiset(),
        ) =~= marker_times(fq).to_multiset().add(
            fresh.drop_first().to_multiset().insert((t0, pid0)),
        ));
    }
}

/// Enter a process into a registry vector: replace the entry with the same
/// identifier, or append.
fn registry_put(running: &mut Vec<Process>, p: Process)
    requires
        pids_distinct(old(running)@),
    ensures
        final(running)@ == registry_insert(old(running)@, p),
{
    let ghost ps = running@;
    let pid = p.pid();
    let mut i: usize = 0;
    while i < running.len() && running[i].pid() != pid
        invariant
            running@ == ps,
            0 <= i <= ps.len(),
            pid == p@.pid,
            forall|j: int| 0 <= j < i ==> (#[trigger] ps[j])@.pid != pid,
        decreases ps.len() - i,
    {
        i = i + 1;
    }
    if i < running.len() {
        proof {
            lemma_find_pid_of_scan(ps, pid, i as int);
            assert(contains_pid(ps, pid));
        }
        running[i] = p;
    } else {
        proof {
            assert(!contains_pid(ps, pid));
        }
        running.push(p);
    }
}

} // verus!
