//! The mathematical model of the coordinator: its state as sequences and a
//! map, the transition each operation performs on that state, and proofs
//! that every transition preserves the state's well-formedness.
use vstd::prelude::*;
use crate::item::{CompletionRecord, CoordError, QueueEntry, WorkItem};

verus! {

/// Seconds a completion record stays visible before a later write may
/// prune it.
pub const RETENTION_SECS: u64 = 60;

/// The coordinator's state: the queued entries in arrival order, the live
/// assignments keyed by work id, the per-worker completion histories
/// (each a worker name with its records, oldest first), and the next
/// identifier to mint.
#[verifier::ext_equal]
pub ghost struct CoordModel {
    pub queued: Seq<QueueEntry>,
    pub assigned: Map<u64, (WorkItem, Seq<char>)>,
    pub completed: Seq<(Seq<char>, Seq<CompletionRecord>)>,
    pub next_id: u64,
}

/// The state of a freshly constructed coordinator: everything empty, ids
/// minted from zero.
pub open spec fn initial_model() -> CoordModel {
    CoordModel {
        queued: Seq::empty(),
        assigned: Map::empty(),
        completed: Seq::empty(),
        next_id: 0,
    }
}

/// Whether a record completed at `r.completed_at` is still inside the
/// retention window at time `now`.
pub open spec fn keep_rec(r: CompletionRecord, now: u64) -> bool {
    now < r.completed_at + RETENTION_SECS
}

/// A history with every record outside the retention window discarded,
/// the surviving records in their original order.
pub open spec fn pruned(s: Seq<CompletionRecord>, now: u64) -> Seq<CompletionRecord>
    decreases s.len(),
{
    if s.len() == 0 {
        Seq::empty()
    } else if keep_rec(s.last(), now) {
        pruned(s.drop_last(), now).push(s.last())
    } else {
        pruned(s.drop_last(), now)
    }
}

/// The index of the first history belonging to `name`, or the length of
/// `c` when no history does.
pub open spec fn find_worker(
    c: Seq<(Seq<char>, Seq<CompletionRecord>)>,
    name: Seq<char>,
) -> int
    decreases c.len(),
{
    if c.len() == 0 {
        0
    } else if c[0].0 == name {
        0
    } else {
        1 + find_worker(c.subrange(1, c.len() as int), name)
    }
}

/// Whether some history belongs to `name`.
pub open spec fn has_worker(c: Seq<(Seq<char>, Seq<CompletionRecord>)>, name: Seq<char>) -> bool {
    find_worker(c, name) < c.len()
}

/// The records held for `name`, empty when no history exists yet.
pub open spec fn history_of(
    c: Seq<(Seq<char>, Seq<CompletionRecord>)>,
    name: Seq<char>,
) -> Seq<CompletionRecord> {
    if has_worker(c, name) {
        c[find_worker(c, name)].1
    } else {
        Seq::empty()
    }
}

/// Every history pruned to the retention window at time `now`; names and
/// their order are kept.
pub open spec fn prune_all(
    c: Seq<(Seq<char>, Seq<CompletionRecord>)>,
    now: u64,
) -> Seq<(Seq<char>, Seq<CompletionRecord>)> {
    c.map_values(|p: (Seq<char>, Seq<CompletionRecord>)| (p.0, pruned(p.1, now)))
}

/// Enqueue: with an item, mint the next id and append the entry at the
/// tail; with no item, reject with `InvalidInput` and change nothing.
pub open spec fn enqueue_step(m: CoordModel, item: Option<WorkItem>) -> (CoordModel, Result<
    u64,
    CoordError,
>) {
    match item {
        Option::None => (m, Result::Err(CoordError::InvalidInput)),
        Option::Some(it) => (
            CoordModel {
                queued: m.queued.push(QueueEntry { work_id: m.next_id, item: it }),
                next_id: (m.next_id + 1) as u64,
                ..m
            },
            Result::Ok(m.next_id),
        ),
    }
}

/// Lease: pop the head of the queue, record the assignment under the
/// calling worker's name, and hand the id and item back; an empty queue
/// yields `None` and changes nothing.
pub open spec fn lease_step(m: CoordModel, worker: Seq<char>) -> (CoordModel, Option<(
    u64,
    WorkItem,
)>) {
    if m.queued.len() == 0 {
        (m, Option::None)
    } else {
        let e = m.queued[0];
        (
            CoordModel {
                queued: m.queued.subrange(1, m.queued.len() as int),
                assigned: m.assigned.insert(e.work_id, (e.item, worker)),
                ..m
            },
            Option::Some((e.work_id, e.item)),
        )
    }
}

/// Complete: remove the id's assignment, append a record timestamped
/// `now` to the assigned worker's history (created on first use), and
/// prune every history to the retention window; an id with no live
/// assignment is rejected with `UnknownWorkId` and changes nothing.
pub open spec fn complete_step(m: CoordModel, work_id: u64, now: u64) -> (CoordModel, Result<
    (),
    CoordError,
>) {
    if !m.assigned.dom().contains(work_id) {
        (m, Result::Err(CoordError::UnknownWorkId))
    } else {
        let (it, worker) = m.assigned[work_id];
        let rec = CompletionRecord { item: it, completed_at: now };
        let i = find_worker(m.completed, worker);
        let appended = if i < m.completed.len() {
            m.completed.update(i, (worker, m.completed[i].1.push(rec)))
        } else {
            m.completed.push((worker, seq![rec]))
        };
        (
            CoordModel {
                assigned: m.assigned.remove(work_id),
                completed: prune_all(appended, now),
                ..m
            },
            Result::Ok(()),
        )
    }
}

/// What a summary reports of the queue: the queued items, ids withheld,
/// in arrival order.
pub open spec fn summary_queued(m: CoordModel) -> Seq<WorkItem> {
    m.queued.map_values(|e: QueueEntry| e.item)
}

/// What a summary reports of the workers: each worker with any recorded
/// completions, paired with the items of its current records in order;
/// timestamps are withheld.
pub open spec fn summary_completed(m: CoordModel) -> Seq<(Seq<char>, Seq<WorkItem>)> {
    m.completed.map_values(
        |p: (Seq<char>, Seq<CompletionRecord>)|
            (p.0, p.1.map_values(|r: CompletionRecord| r.item)),
    )
}

impl CoordModel {
    /// Whether some queued entry carries `id`.
    pub open spec fn queued_has_id(self, id: u64) -> bool {
        exists|k: int| 0 <= k < self.queued.len() && self.queued[k].work_id == id
    }

    /// Well-formedness: queued ids are distinct, every live id is below
    /// `next_id`, no id is queued and assigned at once, and each worker
    /// owns at most one history.
    pub open spec fn wf(self) -> bool {
        &&& (forall|i: int, j: int|
            0 <= i < j < self.queued.len() ==> self.queued[i].work_id != self.queued[j].work_id)
        &&& (forall|i: int| 0 <= i < self.queued.len() ==> self.queued[i].work_id < self.next_id)
        &&& (forall|id: u64| self.assigned.dom().contains(id) ==> id < self.next_id)
        &&& (forall|i: int|
            0 <= i < self.queued.len() ==> !self.assigned.dom().contains(self.queued[i].work_id))
        &&& (forall|i: int, j: int|
            0 <= i < j < self.completed.len() ==> self.completed[i].0 != self.completed[j].0)
    }
}

/// `find_worker` yields an index within bounds that belongs to `name`, or
/// the length when no history does, and nothing before it belongs to
/// `name` either.
pub proof fn lemma_find_worker(c: Seq<(Seq<char>, Seq<CompletionRecord>)>, name: Seq<char>)
    ensures
        0 <= find_worker(c, name) <= c.len(),
        find_worker(c, name) < c.len() ==> c[find_worker(c, name)].0 == name,
        forall|k: int| 0 <= k < find_worker(c, name) ==> c[k].0 != name,
    decreases c.len(),
{
    if c.len() == 0 {
    } else if c[0].0 == name {
    } else {
        let rest = c.subrange(1, c.len() as int);
        lemma_find_worker(rest, name);
        assert forall|k: int| 0 <= k < find_worker(c, name) implies c[k].0 != name by {
            if k > 0 {
                assert(rest[k - 1] == c[k]);
            }
        }
    }
}

/// Two sequences of histories with the same names at every index are
/// searched alike.
pub proof fn lemma_find_worker_same_keys(
    c1: Seq<(Seq<char>, Seq<CompletionRecord>)>,
    c2: Seq<(Seq<char>, Seq<CompletionRecord>)>,
    name: Seq<char>,
)
    requires
        c1.len() == c2.len(),
        forall|k: int| 0 <= k < c1.len() ==> c1[k].0 == c2[k].0,
    ensures
        find_worker(c1, name) == find_worker(c2, name),
    decreases c1.len(),
{
    if c1.len() == 0 {
    } else if c1[0].0 == name {
    } else {
        let r1 = c1.subrange(1, c1.len() as int);
        let r2 = c2.subrange(1, c2.len() as int);
        assert forall|k: int| 0 <= k < r1.len() implies r1[k].0 == r2[k].0 by {
            assert(r1[k] == c1[k + 1]);
            assert(r2[k] == c2[k + 1]);
        }
        lemma_find_worker_same_keys(r1, r2, name);
    }
}

/// A record survives pruning exactly when it was present and is still
/// inside the retention window.
pub proof fn lemma_pruned_membership(s: Seq<CompletionRecord>, now: u64)
    ensures
        forall|r: CompletionRecord|
            s.contains(r) && keep_rec(r, now) ==> #[trigger] pruned(s, now).contains(r),
        forall|r: CompletionRecord|
            #[trigger] pruned(s, now).contains(r) ==> s.contains(r) && keep_rec(r, now),
    decreases s.len(),
{
    if s.len() == 0 {
    } else {
        let d = s.drop_last();
        lemma_pruned_membership(d, now);
        assert forall|r: CompletionRecord|
            s.contains(r) && keep_rec(r, now) implies #[trigger] pruned(s, now).contains(r) by {
            let k = choose|k: int| 0 <= k < s.len() && s[k] == r;
            if k < s.len() - 1 {
                assert(d[k] == r);
                assert(d.contains(r));
                assert(pruned(d, now).contains(r));
                let k2 = choose|k2: int|
                    0 <= k2 < pruned(d, now).len() && pruned(d, now)[k2] == r;
                assert(pruned(s, now)[k2] == r);
            } else {
                assert(r == s.last());
                assert(pruned(s, now)[pruned(s, now).len() - 1] == r);
            }
        }
        assert forall|r: CompletionRecord|
            #[trigger] pruned(s, now).contains(r) implies s.contains(r) && keep_rec(r, now) by {
            let k = choose|k: int| 0 <= k < pruned(s, now).len() && pruned(s, now)[k] == r;
            if keep_rec(s.last(), now) && k == pruned(s, now).len() - 1 {
                assert(r == s.last());
                assert(s[s.len() - 1] == r);
            } else {
                assert(pruned(d, now)[k] == r);
                assert(pruned(d, now).contains(r));
                let k2 = choose|k2: int| 0 <= k2 < d.len() && d[k2] == r;
                assert(s[k2] == r);
            }
        }
    }
}

/// Pruning keeps a still-fresh appended record at the tail: pruning after
/// the append equals pruning before it and then appending.
pub proof fn lemma_pruned_push_fresh(s: Seq<CompletionRecord>, r: CompletionRecord, now: u64)
    requires
        keep_rec(r, now),
    ensures
        pruned(s.push(r), now) == pruned(s, now).push(r),
{
    assert(s.push(r).drop_last() =~= s);
    assert(s.push(r).last() == r);
}

/// Enqueueing preserves well-formedness while ids remain mintable.
pub proof fn lemma_enqueue_preserves_wf(m: CoordModel, item: Option<WorkItem>)
    requires
        m.wf(),
        m.next_id < u64::MAX,
    ensures
        enqueue_step(m, item).0.wf(),
{
}

/// Leasing preserves well-formedness.
pub proof fn lemma_lease_preserves_wf(m: CoordModel, worker: Seq<char>)
    requires
        m.wf(),
    ensures
        lease_step(m, worker).0.wf(),
{
    if m.queued.len() > 0 {
        let m1 = lease_step(m, worker).0;
        assert(forall|k: int| 0 <= k < m1.queued.len() ==> m1.queued[k] == m.queued[k + 1]);
    }
}

/// Completing preserves well-formedness.
pub proof fn lemma_complete_preserves_wf(m: CoordModel, work_id: u64, now: u64)
    requires
        m.wf(),
    ensures
        complete_step(m, work_id, now).0.wf(),
{
    if m.assigned.dom().contains(work_id) {
        let (it, worker) = m.assigned[work_id];
        let i = find_worker(m.completed, worker);
        lemma_find_worker(m.completed, worker);
        let rec = CompletionRecord { item: it, completed_at: now };
        let appended = if i < m.completed.len() {
            m.completed.update(i, (worker, m.completed[i].1.push(rec)))
        } else {
            m.completed.push((worker, seq![rec]))
        };
        let m1 = complete_step(m, work_id, now).0;
        assert(forall|k: int| 0 <= k < appended.len() && k != i ==> appended[k].0 == m.completed[k].0);
        assert(m1.completed == prune_all(appended, now));
        assert(forall|k: int| 0 <= k < m1.completed.len() ==> m1.completed[k].0 == appended[k].0);
    }
}

} // verus!
