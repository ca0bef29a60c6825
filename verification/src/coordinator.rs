//! The executable coordinator: a queue of work entries, the live
//! assignments, and per-worker completion histories, each operation proved
//! to perform exactly the transition its model states.
use vstd::prelude::*;
use std::collections::HashMap;
use std::collections::VecDeque;
use crate::item::{CompletionRecord, CoordError, QueueEntry, WorkItem};
use crate::model::{
    complete_step, enqueue_step, initial_model, lease_step, summary_completed, summary_queued,
    CoordModel, RETENTION_SECS,
};

verus! {

broadcast use vstd::std_specs::hash::group_hash_axioms;

/// A live assignment: the item handed out and the name of the worker that
/// leased it.
struct AssignedWork {
    item: WorkItem,
    worker_name: String,
}

/// One worker's completion history: its name and its records, oldest
/// first.
struct WorkerHistory {
    worker_name: String,
    records: Vec<CompletionRecord>,
}

/// One worker's part of a summary: its name and the items of its current
/// completion records, oldest first.
pub struct WorkerLog {
    pub worker_name: String,
    pub work_completed: Vec<WorkItem>,
}

/// The coordinator's state store. Identifiers are minted from a
/// monotonically increasing counter, so every id ever issued is distinct.
pub struct CoordinatorImpl {
    work_queued: VecDeque<QueueEntry>,
    work_assigned: HashMap<u64, AssignedWork>,
    work_completed: Vec<WorkerHistory>,
    next_id: u64,
}

impl CoordinatorImpl {
    /// The mathematical state this store represents.
    pub closed spec fn model(&self) -> CoordModel {
        CoordModel {
            queued: self.work_queued@,
            assigned: Map::new(
                |id: u64| self.work_assigned@.dom().contains(id),
                |id: u64| (self.work_assigned@[id].item, self.work_assigned@[id].worker_name@),
            ),
            completed: self.work_completed@.map_values(
                |wh: WorkerHistory| (wh.worker_name@, wh.records@),
            ),
            next_id: self.next_id,
        }
    }

    /// Well-formedness of the represented state.
    pub open spec fn wf(&self) -> bool {
        self.model().wf()
    }

    /// A fresh coordinator: nothing queued, assigned or completed.
    pub fn new() -> (c: CoordinatorImpl)
        ensures
            c.wf(),
            c.model() == initial_model(),
    {
        let c = CoordinatorImpl {
            work_queued: VecDeque::new(),
            work_assigned: HashMap::new(),
            work_completed: Vec::new(),
            next_id: 0,
        };
        proof {
            assert(c.model().assigned =~= initial_model().assigned);
            assert(c.model().completed =~= initial_model().completed);
            assert(c.model() =~= initial_model());
        }
        c
    }

    /// Whether another identifier can still be minted, as `add_work`
    /// requires.
    pub fn can_mint(&self) -> (r: bool)
        ensures
            r == (self.model().next_id < u64::MAX),
    {
        self.next_id < u64::MAX
    }

    /// Enqueue: mint a fresh id and append the entry at the tail of the
    /// queue; a request with no item is rejected with `InvalidInput` and
    /// changes nothing.
    pub fn add_work(&mut self, work: Option<WorkItem>) -> (r: Result<u64, CoordError>)
        requires
            old(self).wf(),
            old(self).model().next_id < u64::MAX,
        ensures
            final(self).wf(),
            final(self).model() == enqueue_step(old(self).model(), work).0,
            r == enqueue_step(old(self).model(), work).1,
    {
        match work {
            Option::None => Result::Err(CoordError::InvalidInput),
            Option::Some(it) => {
                let id = self.next_id;
                self.next_id = self.next_id + 1;
                self.work_queued.push_back(QueueEntry { work_id: id, item: it });
                proof {
                    assert(self.model().assigned =~= enqueue_step(old(self).model(), work).0.assigned);
                    assert(self.model() =~= enqueue_step(old(self).model(), work).0);
                    crate::model::lemma_enqueue_preserves_wf(old(self).model(), work);
                }
                Result::Ok(id)
            },
        }
    }

    /// Lease: pop the head of the queue, record the assignment under the
    /// calling worker's name, and return the id and item; an empty queue
    /// yields `None` and changes nothing.
    pub fn get_work(&mut self, worker_name: String) -> (r: Option<(u64, WorkItem)>)
        requires
            old(self).wf(),
        ensures
            final(self).wf(),
            final(self).model() == lease_step(old(self).model(), worker_name@).0,
            r == lease_step(old(self).model(), worker_name@).1,
    {
        let popped = self.work_queued.pop_front();
        match popped {
            Option::None => Option::None,
            Option::Some(e) => {
                proof {
                    crate::model::lemma_lease_preserves_wf(old(self).model(), worker_name@);
                }
                self.work_assigned.insert(
                    e.work_id,
                    AssignedWork { item: e.item, worker_name },
                );
                proof {
                    assert(self.model().assigned =~= lease_step(
                        old(self).model(),
                        worker_name@,
                    ).0.assigned);
                    assert(self.model() =~= lease_step(old(self).model(), worker_name@).0);
                }
                Option::Some((e.work_id, e.item))
            },
        }
    }

    /// Complete: remove the id's live assignment, append a record
    /// timestamped `now` to the assigned worker's history (created on its
    /// first completion), and prune every history to the retention window;
    /// an id with no live assignment is rejected with `UnknownWorkId` and
    /// changes nothing.
    pub fn work_completed(&mut self, work_id: u64, now: u64) -> (r: Result<(), CoordError>)
        requires
            old(self).wf(),
        ensures
            final(self).wf(),
            final(self).model() == complete_step(old(self).model(), work_id, now).0,
            r == complete_step(old(self).model(), work_id, now).1,
    {
        let ghost m0 = old(self).model();
        let removed = self.work_assigned.remove(&work_id);
        match removed {
            Option::None => {
                proof {
                    assert(!m0.assigned.dom().contains(work_id));
                    assert(self.model().assigned =~= m0.assigned);
                    assert(self.model() =~= m0);
                }
                Result::Err(CoordError::UnknownWorkId)
            },
            Option::Some(aw) => {
                proof {
                    assert(m0.assigned.dom().contains(work_id));
                    assert(m0.assigned[work_id] == (aw.item, aw.worker_name@));
                    assert(self.model().assigned =~= m0.assigned.remove(work_id));
                    crate::model::lemma_complete_preserves_wf(m0, work_id, now);
                }
                let rec = CompletionRecord { item: aw.item, completed_at: now };
                let ghost pre = *self;
                // Find the first history that belongs to this worker.
                let n = self.work_completed.len();
                let mut idx: usize = n;
                let mut j: usize = 0;
                while j < n
                    invariant
                        *self == pre,
                        n == self.work_completed@.len(),
                        j <= n,
                        idx == n || (idx < j && self.work_completed@[
                            idx as int
                        ].worker_name@ == aw.worker_name@ && forall|k: int|
                            0 <= k < idx ==> self.work_completed@[k].worker_name@
                                != aw.worker_name@),
                        idx == n ==> forall|k: int|
                            0 <= k < j ==> self.work_completed@[k].worker_name@ != aw.worker_name@,
                    decreases n - j,
                {
                    if idx == n && self.work_completed[j].worker_name == aw.worker_name {
                        idx = j;
                    }
                    j = j + 1;
                }
                proof {
                    crate::model::lemma_find_worker(m0.completed, aw.worker_name@);
                    let fw = crate::model::find_worker(m0.completed, aw.worker_name@);
                    assert(m0.completed.len() == n);
                    assert(forall|k: int|
                        0 <= k < n ==> m0.completed[k].0 == self.work_completed@[k].worker_name@
                            && m0.completed[k].1 == self.work_completed@[k].records@);
                    if idx < n {
                        assert(m0.completed[idx as int].0 == aw.worker_name@);
                        assert(fw == idx as int);
                    } else {
                        assert(fw == n as int);
                    }
                }
                let ghost appended = if crate::model::find_worker(m0.completed, aw.worker_name@)
                    < m0.completed.len() {
                    m0.completed.update(
                        crate::model::find_worker(m0.completed, aw.worker_name@),
                        (
                            aw.worker_name@,
                            m0.completed[crate::model::find_worker(
                                m0.completed,
                                aw.worker_name@,
                            )].1.push(rec),
                        ),
                    )
                } else {
                    m0.completed.push((aw.worker_name@, seq![rec]))
                };
                if idx < n {
                    let wh = self.work_completed.remove(idx);
                    let WorkerHistory { worker_name, mut records } = wh;
                    records.push(rec);
                    self.work_completed.insert(idx, WorkerHistory { worker_name, records });
                    proof {
                        assert(self.work_completed@ =~= pre.work_completed@.update(
                            idx as int,
                            self.work_completed@[idx as int],
                        ));
                        assert(self.model().completed =~~= appended);
                    }
                } else {
                    let mut records: Vec<CompletionRecord> = Vec::new();
                    records.push(rec);
                    self.work_completed.push(
                        WorkerHistory { worker_name: aw.worker_name, records },
                    );
                    proof {
                        assert(self.model().completed =~~= appended);
                    }
                }
                // Prune every history to the retention window.
                let ghost pre2 = *self;
                let mut p: usize = 0;
                while p < self.work_completed.len()
                    invariant
                        self.work_completed@.len() == pre2.work_completed@.len(),
                        p <= self.work_completed@.len(),
                        forall|k: int|
                            0 <= k < p ==> self.work_completed@[k].worker_name@
                                == pre2.work_completed@[k].worker_name@
                                && self.work_completed@[k].records@ == crate::model::pruned(
                                pre2.work_completed@[k].records@,
                                now,
                            ),
                        forall|k: int|
                            p <= k < pre2.work_completed@.len() ==> self.work_completed@[k]
                                == pre2.work_completed@[k],
                        self.work_queued@ == pre2.work_queued@,
                        self.work_assigned@ == pre2.work_assigned@,
                        self.next_id == pre2.next_id,
                    decreases pre2.work_completed@.len() - p,
                {
                    let wh = self.work_completed.remove(p);
                    let WorkerHistory { worker_name, records } = wh;
                    let kept = prune_records(&records, now);
                    self.work_completed.insert(p, WorkerHistory { worker_name, records: kept });
                    p = p + 1;
                }
                proof {
                    assert(pre2.model().completed == appended);
                    assert(self.model().completed =~~= crate::model::prune_all(appended, now));
                    assert(self.model().assigned =~= m0.assigned.remove(work_id));
                    assert(self.model() =~~= complete_step(m0, work_id, now).0);
                }
                Result::Ok(())
            },
        }
    }
}

impl Default for CoordinatorImpl {
    /// The same fresh state `new` constructs.
    fn default() -> (c: Self)
        ensures
            c.wf(),
            c.model() == initial_model(),
    {
        CoordinatorImpl::new()
    }
}

/// Summarize: a point-in-time snapshot. The first component is the queued
/// items in arrival order, ids withheld; the second is one log per worker
/// with any recorded completions, holding the items of its current
/// records, timestamps withheld.
impl CoordinatorImpl {
    pub fn get_summary(&self) -> (r: (Vec<WorkItem>, Vec<WorkerLog>))
        ensures
            r.0@ == summary_queued(self.model()),
            r.1@.len() == summary_completed(self.model()).len(),
            forall|k: int|
                0 <= k < r.1@.len() ==> r.1@[k].worker_name@ == summary_completed(self.model())[k].0
                    && r.1@[k].work_completed@ == summary_completed(self.model())[k].1,
    {
        let mut queued_items: Vec<WorkItem> = Vec::new();
        let mut i: usize = 0;
        while i < self.work_queued.len()
            invariant
                i <= self.work_queued@.len(),
                queued_items@.len() == i,
                forall|k: int| 0 <= k < i ==> queued_items@[k] == self.work_queued@[k].item,
            decreases self.work_queued@.len() - i,
        {
            queued_items.push(self.work_queued[i].item);
            i = i + 1;
        }
        proof {
            assert(queued_items@ =~= summary_queued(self.model()));
        }
        let mut logs: Vec<WorkerLog> = Vec::new();
        let mut w: usize = 0;
        while w < self.work_completed.len()
            invariant
                w <= self.work_completed@.len(),
                logs@.len() == w,
                forall|k: int|
                    0 <= k < w ==> logs@[k].worker_name@ == self.work_completed@[k].worker_name@
                        && logs@[k].work_completed@ == self.work_completed@[k].records@.map_values(
                        |rc: CompletionRecord| rc.item,
                    ),
            decreases self.work_completed@.len() - w,
        {
            let wh = &self.work_completed[w];
            let name = wh.worker_name.clone();
            let mut items: Vec<WorkItem> = Vec::new();
            let mut q: usize = 0;
            while q < wh.records.len()
                invariant
                    q <= wh.records@.len(),
                    items@.len() == q,
                    forall|k: int| 0 <= k < q ==> items@[k] == wh.records@[k].item,
                decreases wh.records@.len() - q,
            {
                items.push(wh.records[q].item);
                q = q + 1;
            }
            proof {
                assert(items@ =~= wh.records@.map_values(|rc: CompletionRecord| rc.item));
            }
            logs.push(WorkerLog { worker_name: name, work_completed: items });
            w = w + 1;
        }
        (queued_items, logs)
    }
}

/// Copy of a history with every record outside the retention window at
/// `now` discarded, survivors in order.
fn prune_records(records: &Vec<CompletionRecord>, now: u64) -> (r: Vec<CompletionRecord>)
    ensures
        r@ == crate::model::pruned(records@, now),
{
    let mut out: Vec<CompletionRecord> = Vec::new();
    let mut i: usize = 0;
    while i < records.len()
        invariant
            i <= records@.len(),
            out@ == crate::model::pruned(records@.take(i as int), now),
        decreases records@.len() - i,
    {
        let rec = records[i];
        proof {
            assert(records@.take(i as int + 1).drop_last() =~= records@.take(i as int));
            assert(records@.take(i as int + 1).last() == records@[i as int]);
        }
        if rec.completed_at >= now || now - rec.completed_at < RETENTION_SECS {
            out.push(rec);
        }
        i = i + 1;
    }
    proof {
        assert(records@.take(records@.len() as int) =~= records@);
    }
    out
}

} // verus!
