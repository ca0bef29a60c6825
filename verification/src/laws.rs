//! The coordinator's guarantees, proved over the model: FIFO delivery,
//! no double assignment or double completion of a work id, rejection of
//! unknown ids without side effects, retention of completion records, and
//! snapshot consistency. A run is an arbitrary interleaving of requests
//! served in order, so these hold for every schedule of producers,
//! workers and observers.
use vstd::prelude::*;
use crate::item::{CompletionRecord, CoordError, QueueEntry, WorkItem};
use crate::model::{
    complete_step, enqueue_step, find_worker, has_worker, history_of, keep_rec, lease_step,
    lemma_complete_preserves_wf, lemma_enqueue_preserves_wf, lemma_find_worker,
    lemma_find_worker_same_keys, lemma_lease_preserves_wf, lemma_pruned_membership,
    lemma_pruned_push_fresh, prune_all, pruned, summary_completed, CoordModel,
};

verus! {

/// One state-changing request to the coordinator, as the model sees it.
/// Summaries are read-only and move no state, so they need no entry here.
pub ghost enum Op {
    Enqueue { item: Option<WorkItem> },
    Lease { worker: Seq<char> },
    Complete { work_id: u64, now: u64 },
}

/// The state after serving one request.
pub open spec fn apply_op(m: CoordModel, op: Op) -> CoordModel {
    match op {
        Op::Enqueue { item } => enqueue_step(m, item).0,
        Op::Lease { worker } => lease_step(m, worker).0,
        Op::Complete { work_id, now } => complete_step(m, work_id, now).0,
    }
}

/// Whether a request may be served in a state: enqueueing needs a
/// mintable id, as the executable coordinator requires.
pub open spec fn op_enabled(m: CoordModel, op: Op) -> bool {
    match op {
        Op::Enqueue { .. } => m.next_id < u64::MAX,
        Op::Lease { .. } => true,
        Op::Complete { .. } => true,
    }
}

/// The state after a sequence of requests, served in order.
pub open spec fn run(m: CoordModel, ops: Seq<Op>) -> CoordModel
    decreases ops.len(),
{
    if ops.len() == 0 {
        m
    } else {
        run(apply_op(m, ops[0]), ops.subrange(1, ops.len() as int))
    }
}

/// The state after the first `k` requests of a run.
pub open spec fn state_at(m0: CoordModel, ops: Seq<Op>, k: int) -> CoordModel {
    run(m0, ops.take(k))
}

/// Every request of the run is served in a state where it is enabled.
pub open spec fn run_enabled(m0: CoordModel, ops: Seq<Op>) -> bool {
    forall|k: int| 0 <= k < ops.len() ==> op_enabled(state_at(m0, ops, k), #[trigger] ops[k])
}

/// Appending one request to a run steps its final state once.
pub proof fn lemma_run_snoc(m: CoordModel, ops: Seq<Op>, op: Op)
    ensures
        run(m, ops.push(op)) == apply_op(run(m, ops), op),
    decreases ops.len(),
{
    if ops.len() == 0 {
        assert(ops.push(op)[0] == op);
        assert(ops.push(op).subrange(1, ops.push(op).len() as int) =~= Seq::<Op>::empty());
        assert(run(apply_op(m, op), Seq::<Op>::empty()) == apply_op(m, op));
    } else {
        assert(ops.push(op)[0] == ops[0]);
        assert(ops.push(op).subrange(1, ops.push(op).len() as int) =~= ops.subrange(
            1,
            ops.len() as int,
        ).push(op));
        lemma_run_snoc(apply_op(m, ops[0]), ops.subrange(1, ops.len() as int), op);
    }
}

/// The state after `k + 1` requests is one step past the state after `k`.
pub proof fn lemma_state_at_step(m0: CoordModel, ops: Seq<Op>, k: int)
    requires
        0 <= k < ops.len(),
    ensures
        state_at(m0, ops, k + 1) == apply_op(state_at(m0, ops, k), ops[k]),
{
    assert(ops.take(k + 1) =~= ops.take(k).push(ops[k]));
    lemma_run_snoc(m0, ops.take(k), ops[k]);
}

/// Serving any enabled request preserves well-formedness.
pub proof fn lemma_apply_op_preserves_wf(m: CoordModel, op: Op)
    requires
        m.wf(),
        op_enabled(m, op),
    ensures
        apply_op(m, op).wf(),
{
    match op {
        Op::Enqueue { item } => lemma_enqueue_preserves_wf(m, item),
        Op::Lease { worker } => lemma_lease_preserves_wf(m, worker),
        Op::Complete { work_id, now } => lemma_complete_preserves_wf(m, work_id, now),
    }
}

/// Every state along an enabled run from a well-formed state is
/// well-formed.
pub proof fn lemma_wf_at(m0: CoordModel, ops: Seq<Op>, k: int)
    requires
        m0.wf(),
        run_enabled(m0, ops),
        0 <= k <= ops.len(),
    ensures
        state_at(m0, ops, k).wf(),
    decreases k,
{
    if k == 0 {
        assert(ops.take(0) =~= Seq::<Op>::empty());
    } else {
        lemma_wf_at(m0, ops, k - 1);
        lemma_state_at_step(m0, ops, k - 1);
        lemma_apply_op_preserves_wf(state_at(m0, ops, k - 1), ops[k - 1]);
    }
}

/// An id below the minting counter that is not queued stays unqueued, and
/// stays below the counter, whatever single request is served.
pub proof fn lemma_unqueued_step(m: CoordModel, op: Op, id: u64)
    requires
        op_enabled(m, op),
        !m.queued_has_id(id),
        id < m.next_id,
    ensures
        !apply_op(m, op).queued_has_id(id),
        id < apply_op(m, op).next_id,
{
    let m1 = apply_op(m, op);
    match op {
        Op::Enqueue { item } => {
            if item is Some {
                assert forall|k: int|
                    0 <= k < m1.queued.len() implies m1.queued[k].work_id != id by {
                    if k < m.queued.len() {
                        assert(!m.queued_has_id(id));
                    }
                }
            }
        },
        Op::Lease { worker } => {
            if m.queued.len() > 0 {
                assert forall|k: int|
                    0 <= k < m1.queued.len() implies m1.queued[k].work_id != id by {
                    assert(m1.queued[k] == m.queued[k + 1]);
                }
            }
        },
        Op::Complete { .. } => {},
    }
}

/// A retired id — not queued, not assigned, below the counter — stays
/// retired, whatever single request is served.
pub proof fn lemma_retired_step(m: CoordModel, op: Op, id: u64)
    requires
        op_enabled(m, op),
        !m.queued_has_id(id),
        !m.assigned.dom().contains(id),
        id < m.next_id,
    ensures
        !apply_op(m, op).queued_has_id(id),
        !apply_op(m, op).assigned.dom().contains(id),
        id < apply_op(m, op).next_id,
{
    lemma_unqueued_step(m, op, id);
    match op {
        Op::Enqueue { .. } => {},
        Op::Lease { worker } => {
            if m.queued.len() > 0 {
                assert(m.queued[0].work_id != id);
            }
        },
        Op::Complete { .. } => {},
    }
}

/// `lemma_unqueued_step`, carried along a run from step `i` to step `j`.
pub proof fn lemma_unqueued_between(m0: CoordModel, ops: Seq<Op>, i: int, j: int, id: u64)
    requires
        run_enabled(m0, ops),
        0 <= i <= j <= ops.len(),
        !state_at(m0, ops, i).queued_has_id(id),
        id < state_at(m0, ops, i).next_id,
    ensures
        !state_at(m0, ops, j).queued_has_id(id),
        id < state_at(m0, ops, j).next_id,
    decreases j - i,
{
    if i < j {
        lemma_state_at_step(m0, ops, i);
        lemma_unqueued_step(state_at(m0, ops, i), ops[i], id);
        lemma_unqueued_between(m0, ops, i + 1, j, id);
    }
}

/// `lemma_retired_step`, carried along a run from step `i` to step `j`.
pub proof fn lemma_retired_between(m0: CoordModel, ops: Seq<Op>, i: int, j: int, id: u64)
    requires
        run_enabled(m0, ops),
        0 <= i <= j <= ops.len(),
        !state_at(m0, ops, i).queued_has_id(id),
        !state_at(m0, ops, i).assigned.dom().contains(id),
        id < state_at(m0, ops, i).next_id,
    ensures
        !state_at(m0, ops, j).queued_has_id(id),
        !state_at(m0, ops, j).assigned.dom().contains(id),
        id < state_at(m0, ops, j).next_id,
    decreases j - i,
{
    if i < j {
        lemma_state_at_step(m0, ops, i);
        lemma_retired_step(state_at(m0, ops, i), ops[i], id);
        lemma_retired_between(m0, ops, i + 1, j, id);
    }
}

/// No double assignment, lease half: across one run, two successful
/// leases never hand out the same work id.
pub proof fn lemma_no_double_lease(
    m0: CoordModel,
    ops: Seq<Op>,
    i: int,
    j: int,
    wi: Seq<char>,
    wj: Seq<char>,
    pi: (u64, WorkItem),
    pj: (u64, WorkItem),
)
    requires
        m0.wf(),
        run_enabled(m0, ops),
        0 <= i < j < ops.len(),
        ops[i] == (Op::Lease { worker: wi }),
        ops[j] == (Op::Lease { worker: wj }),
        lease_step(state_at(m0, ops, i), wi).1 == Option::Some(pi),
        lease_step(state_at(m0, ops, j), wj).1 == Option::Some(pj),
    ensures
        pi.0 != pj.0,
{
    let mi = state_at(m0, ops, i);
    let mj = state_at(m0, ops, j);
    lemma_wf_at(m0, ops, i);
    lemma_state_at_step(m0, ops, i);
    let mi1 = state_at(m0, ops, i + 1);
    assert(pi.0 == mi.queued[0].work_id);
    assert forall|k: int| 0 <= k < mi1.queued.len() implies mi1.queued[k].work_id != pi.0 by {
        assert(mi1.queued[k] == mi.queued[k + 1]);
    }
    assert(!mi1.queued_has_id(pi.0));
    assert(pi.0 < mi1.next_id);
    lemma_unqueued_between(m0, ops, i + 1, j, pi.0);
    assert(mj.queued[0].work_id == pj.0);
    assert(mj.queued_has_id(pj.0));
}

/// After an accepted completion the id is retired: not queued, not
/// assigned, below the minting counter, at every later point of the run.
pub proof fn lemma_retired_after_complete(
    m0: CoordModel,
    ops: Seq<Op>,
    i: int,
    j: int,
    id: u64,
    t: u64,
)
    requires
        m0.wf(),
        run_enabled(m0, ops),
        0 <= i < j <= ops.len(),
        ops[i] == (Op::Complete { work_id: id, now: t }),
        complete_step(state_at(m0, ops, i), id, t).1 is Ok,
    ensures
        !state_at(m0, ops, j).queued_has_id(id),
        !state_at(m0, ops, j).assigned.dom().contains(id),
        id < state_at(m0, ops, j).next_id,
{
    let mi = state_at(m0, ops, i);
    lemma_wf_at(m0, ops, i);
    lemma_state_at_step(m0, ops, i);
    let mi1 = state_at(m0, ops, i + 1);
    assert(mi.assigned.dom().contains(id));
    assert(!mi.queued_has_id(id));
    assert(!mi1.assigned.dom().contains(id));
    lemma_retired_between(m0, ops, i + 1, j, id);
}

/// No double completion: once a completion of an id is accepted, any
/// later completion of the same id is rejected with `UnknownWorkId` and
/// changes nothing.
pub proof fn lemma_no_double_complete(
    m0: CoordModel,
    ops: Seq<Op>,
    i: int,
    j: int,
    id: u64,
    ti: u64,
    tj: u64,
)
    requires
        m0.wf(),
        run_enabled(m0, ops),
        0 <= i < j <= ops.len(),
        ops[i] == (Op::Complete { work_id: id, now: ti }),
        complete_step(state_at(m0, ops, i), id, ti).1 is Ok,
    ensures
        complete_step(state_at(m0, ops, j), id, tj).1 == Result::<(), CoordError>::Err(
            CoordError::UnknownWorkId,
        ),
        complete_step(state_at(m0, ops, j), id, tj).0 == state_at(m0, ops, j),
{
    lemma_retired_after_complete(m0, ops, i, j, id, ti);
}

/// Unknown-id rejection: completing an id with no live assignment is
/// rejected with `UnknownWorkId` and leaves every collection unchanged.
pub proof fn lemma_unknown_id_rejected(m: CoordModel, id: u64, now: u64)
    requires
        !m.assigned.dom().contains(id),
    ensures
        complete_step(m, id, now).0 == m,
        complete_step(m, id, now).1 == Result::<(), CoordError>::Err(CoordError::UnknownWorkId),
{
}

/// An id never issued — at or above the minting counter — has no live
/// assignment in a well-formed state, so completing it is rejected and
/// changes nothing.
pub proof fn lemma_never_issued_rejected(m: CoordModel, id: u64, now: u64)
    requires
        m.wf(),
        id >= m.next_id,
    ensures
        complete_step(m, id, now).0 == m,
        complete_step(m, id, now).1 == Result::<(), CoordError>::Err(CoordError::UnknownWorkId),
{
}

/// The requests that enqueue `items`, in order.
pub open spec fn enqueue_ops(items: Seq<WorkItem>) -> Seq<Op> {
    items.map_values(|it: WorkItem| Op::Enqueue { item: Option::Some(it) })
}

/// What a sequence of leases returns: one result per calling worker, in
/// calling order.
pub open spec fn lease_results(m: CoordModel, workers: Seq<Seq<char>>) -> Seq<Option<(
    u64,
    WorkItem,
)>>
    decreases workers.len(),
{
    if workers.len() == 0 {
        Seq::empty()
    } else {
        seq![lease_step(m, workers[0]).1] + lease_results(
            lease_step(m, workers[0]).0,
            workers.subrange(1, workers.len() as int),
        )
    }
}

/// Enqueueing a sequence of items appends them behind the existing queue,
/// in order, under consecutive freshly minted ids, and touches nothing
/// else.
pub proof fn lemma_enqueue_all(m: CoordModel, items: Seq<WorkItem>)
    requires
        m.next_id + items.len() <= u64::MAX,
    ensures
        ({
            let m1 = run(m, enqueue_ops(items));
            &&& m1.queued.len() == m.queued.len() + items.len()
            &&& (forall|k: int| 0 <= k < m.queued.len() ==> m1.queued[k] == m.queued[k])
            &&& (forall|k: int|
                0 <= k < items.len() ==> m1.queued[m.queued.len() + k] == (QueueEntry {
                    work_id: (m.next_id + k) as u64,
                    item: items[k],
                }))
            &&& m1.assigned == m.assigned
            &&& m1.completed == m.completed
            &&& m1.next_id == m.next_id + items.len()
        }),
    decreases items.len(),
{
    let ops = enqueue_ops(items);
    if items.len() == 0 {
        assert(ops =~= Seq::<Op>::empty());
    } else {
        let rest = items.subrange(1, items.len() as int);
        assert(ops[0] == (Op::Enqueue { item: Option::Some(items[0]) }));
        let ma = apply_op(m, ops[0]);
        assert(ops.subrange(1, ops.len() as int) =~= enqueue_ops(rest));
        lemma_enqueue_all(ma, rest);
        let m1 = run(m, ops);
        assert(m1 == run(ma, enqueue_ops(rest)));
        assert forall|k: int|
            0 <= k < items.len() implies m1.queued[m.queued.len() + k] == (QueueEntry {
            work_id: (m.next_id + k) as u64,
            item: items[k],
        }) by {
            if k == 0 {
                assert(m1.queued[m.queued.len() as int] == ma.queued[m.queued.len() as int]);
            } else {
                assert(rest[k - 1] == items[k]);
                assert(m1.queued[ma.queued.len() + (k - 1)] == (QueueEntry {
                    work_id: (ma.next_id + (k - 1)) as u64,
                    item: rest[k - 1],
                }));
            }
        }
    }
}

/// Leasing while the queue holds enough entries pops them from the head,
/// in order.
pub proof fn lemma_lease_all(m: CoordModel, workers: Seq<Seq<char>>)
    requires
        workers.len() <= m.queued.len(),
    ensures
        ({
            let res = lease_results(m, workers);
            &&& res.len() == workers.len()
            &&& (forall|k: int|
                0 <= k < workers.len() ==> res[k] == Option::Some(
                    (m.queued[k].work_id, m.queued[k].item),
                ))
        }),
    decreases workers.len(),
{
    if workers.len() > 0 {
        let ma = lease_step(m, workers[0]).0;
        let rest = workers.subrange(1, workers.len() as int);
        lemma_lease_all(ma, rest);
        let res = lease_results(m, workers);
        assert forall|k: int|
            0 <= k < workers.len() implies res[k] == Option::Some(
            (m.queued[k].work_id, m.queued[k].item),
        ) by {
            if k > 0 {
                assert(ma.queued[k - 1] == m.queued[k]);
                assert(res[k] == lease_results(ma, rest)[k - 1]);
            }
        }
    }
}

/// FIFO: enqueueing items into an empty queue and then leasing as many
/// times, with no interleaving enqueues, returns exactly those items in
/// arrival order, under the ids minted for them in minting order —
/// whichever workers ask.
pub proof fn lemma_fifo(m: CoordModel, items: Seq<WorkItem>, workers: Seq<Seq<char>>)
    requires
        m.queued.len() == 0,
        m.next_id + items.len() <= u64::MAX,
        workers.len() == items.len(),
    ensures
        ({
            let res = lease_results(run(m, enqueue_ops(items)), workers);
            &&& res.len() == items.len()
            &&& (forall|k: int|
                0 <= k < items.len() ==> res[k] == Option::Some(
                    ((m.next_id + k) as u64, items[k]),
                ))
        }),
{
    lemma_enqueue_all(m, items);
    lemma_lease_all(run(m, enqueue_ops(items)), workers);
}

/// An accepted completion is recorded: afterwards the history of the
/// worker that held the assignment contains a record of the item,
/// timestamped `now` — the freshly appended record is never pruned by its
/// own operation.
pub proof fn lemma_completion_recorded(m: CoordModel, work_id: u64, now: u64)
    requires
        m.wf(),
        m.assigned.dom().contains(work_id),
    ensures
        complete_step(m, work_id, now).1 is Ok,
        history_of(complete_step(m, work_id, now).0.completed, m.assigned[work_id].1).contains(
            CompletionRecord { item: m.assigned[work_id].0, completed_at: now },
        ),
{
    let worker = m.assigned[work_id].1;
    let rec = CompletionRecord { item: m.assigned[work_id].0, completed_at: now };
    let i = find_worker(m.completed, worker);
    lemma_find_worker(m.completed, worker);
    let appended = if i < m.completed.len() {
        m.completed.update(i, (worker, m.completed[i].1.push(rec)))
    } else {
        m.completed.push((worker, seq![rec]))
    };
    let m1 = complete_step(m, work_id, now).0;
    assert(m1.completed == prune_all(appended, now));
    assert(forall|k: int| 0 <= k < appended.len() ==> m1.completed[k].0 == appended[k].0);
    lemma_find_worker_same_keys(m1.completed, appended, worker);
    lemma_find_worker(appended, worker);
    let fa = find_worker(appended, worker);
    if i < m.completed.len() {
        lemma_find_worker_same_keys(appended, m.completed, worker);
        assert(fa == i);
        lemma_pruned_push_fresh(m.completed[i].1, rec, now);
        let h = m1.completed[i].1;
        assert(h == pruned(m.completed[i].1, now).push(rec));
        assert(h[h.len() - 1] == rec);
        assert(h.contains(rec));
    } else {
        if fa < m.completed.len() {
            assert(appended[fa] == m.completed[fa]);
            assert(false);
        }
        assert(appended[m.completed.len() as int].0 == worker);
        assert(fa == m.completed.len());
        assert(seq![rec] =~= Seq::<CompletionRecord>::empty().push(rec));
        lemma_pruned_push_fresh(Seq::<CompletionRecord>::empty(), rec, now);
        let h = m1.completed[fa].1;
        assert(h == pruned(seq![rec], now));
        assert(h =~= Seq::<CompletionRecord>::empty().push(rec));
        assert(h[0] == rec);
        assert(h.contains(rec));
    }
}

/// Whether serving a request may not discard `r`: only a completion whose
/// time has passed the record's retention window prunes it.
pub open spec fn op_keeps(op: Op, r: CompletionRecord) -> bool {
    match op {
        Op::Complete { now, .. } => keep_rec(r, now),
        Op::Enqueue { .. } => true,
        Op::Lease { .. } => true,
    }
}

/// Retention, keeping half: a record still inside the retention window
/// survives any single request — later completions may prune histories,
/// but only of records whose window has passed.
pub proof fn lemma_retention_kept(m: CoordModel, op: Op, w: Seq<char>, r: CompletionRecord)
    requires
        m.wf(),
        history_of(m.completed, w).contains(r),
        op_keeps(op, r),
    ensures
        history_of(apply_op(m, op).completed, w).contains(r),
{
    let m1 = apply_op(m, op);
    match op {
        Op::Enqueue { .. } => {},
        Op::Lease { .. } => {},
        Op::Complete { work_id, now } => {
            if m.assigned.dom().contains(work_id) {
                let worker = m.assigned[work_id].1;
                let rec = CompletionRecord { item: m.assigned[work_id].0, completed_at: now };
                let i = find_worker(m.completed, worker);
                lemma_find_worker(m.completed, worker);
                let appended = if i < m.completed.len() {
                    m.completed.update(i, (worker, m.completed[i].1.push(rec)))
                } else {
                    m.completed.push((worker, seq![rec]))
                };
                assert(has_worker(m.completed, w));
                let fw = find_worker(m.completed, w);
                lemma_find_worker(m.completed, w);
                lemma_find_worker(appended, w);
                let fa = find_worker(appended, w);
                if i < m.completed.len() {
                    lemma_find_worker_same_keys(appended, m.completed, w);
                    assert(fa == fw);
                } else {
                    assert(appended[fw].0 == w);
                    if fa < fw {
                        assert(appended[fa] == m.completed[fa]);
                        assert(false);
                    }
                    assert(fa == fw);
                }
                let hr = m.completed[fw].1;
                let k0 = choose|k0: int| 0 <= k0 < hr.len() && hr[k0] == r;
                if i < m.completed.len() && i == fw {
                    assert(appended[fa].1 == hr.push(rec));
                    assert(appended[fa].1[k0] == r);
                } else {
                    assert(appended[fa].1 == hr);
                }
                assert(appended[fa].1.contains(r));
                assert(m1.completed == prune_all(appended, now));
                assert(forall|k: int| 0 <= k < appended.len() ==> m1.completed[k].0 == appended[k].0);
                lemma_find_worker_same_keys(m1.completed, appended, w);
                lemma_pruned_membership(appended[fa].1, now);
                assert(history_of(m1.completed, w) == pruned(appended[fa].1, now));
                assert(history_of(m1.completed, w).contains(r));
            }
        },
    }
}

/// Retention, keeping half, over a whole run: a record held at step `i`
/// is still held at step `j` as long as no completion in between carries
/// a time past the record's retention window.
pub proof fn lemma_retention_kept_between(
    m0: CoordModel,
    ops: Seq<Op>,
    i: int,
    j: int,
    w: Seq<char>,
    r: CompletionRecord,
)
    requires
        m0.wf(),
        run_enabled(m0, ops),
        0 <= i <= j <= ops.len(),
        history_of(state_at(m0, ops, i).completed, w).contains(r),
        forall|k: int| i <= k < j ==> op_keeps(#[trigger] ops[k], r),
    ensures
        history_of(state_at(m0, ops, j).completed, w).contains(r),
    decreases j - i,
{
    if i < j {
        lemma_wf_at(m0, ops, i);
        lemma_state_at_step(m0, ops, i);
        lemma_retention_kept(state_at(m0, ops, i), ops[i], w, r);
        lemma_retention_kept_between(m0, ops, i + 1, j, w, r);
    }
}

/// Retention, pruning half: an accepted completion prunes every history,
/// so any record still present afterwards — under any worker — is inside
/// the retention window at that operation's time.
pub proof fn lemma_retention_pruned(
    m: CoordModel,
    work_id: u64,
    now: u64,
    w: Seq<char>,
    r: CompletionRecord,
)
    requires
        complete_step(m, work_id, now).1 is Ok,
        history_of(complete_step(m, work_id, now).0.completed, w).contains(r),
    ensures
        keep_rec(r, now),
{
    let m1 = complete_step(m, work_id, now).0;
    let worker = m.assigned[work_id].1;
    let rec = CompletionRecord { item: m.assigned[work_id].0, completed_at: now };
    let i = find_worker(m.completed, worker);
    let appended = if i < m.completed.len() {
        m.completed.update(i, (worker, m.completed[i].1.push(rec)))
    } else {
        m.completed.push((worker, seq![rec]))
    };
    assert(m1.completed == prune_all(appended, now));
    assert(has_worker(m1.completed, w));
    let fw = find_worker(m1.completed, w);
    lemma_find_worker(m1.completed, w);
    assert(m1.completed[fw].1 == pruned(appended[fw].1, now));
    lemma_pruned_membership(appended[fw].1, now);
}

/// A record held for a worker is reported by a summary: that worker's log
/// lists the record's item.
pub proof fn lemma_summary_shows(m: CoordModel, w: Seq<char>, r: CompletionRecord)
    requires
        history_of(m.completed, w).contains(r),
    ensures
        exists|k: int|
            0 <= k < summary_completed(m).len() && summary_completed(m)[k].0 == w
                && #[trigger] summary_completed(m)[k].1.contains(r.item),
{
    assert(has_worker(m.completed, w));
    let fw = find_worker(m.completed, w);
    lemma_find_worker(m.completed, w);
    let hr = m.completed[fw].1;
    let q = choose|q: int| 0 <= q < hr.len() && hr[q] == r;
    assert(summary_completed(m)[fw].1[q] == r.item);
    assert(summary_completed(m)[fw].1.contains(r.item));
    assert(summary_completed(m)[fw].0 == w);
}

/// Snapshot consistency: once a completion of a work id has been
/// accepted, no later state holds that id in the queued collection — so a
/// summary never reports an id's item as still queued once its completion
/// has been recorded.
pub proof fn lemma_completed_not_queued(
    m0: CoordModel,
    ops: Seq<Op>,
    i: int,
    j: int,
    id: u64,
    t: u64,
)
    requires
        m0.wf(),
        run_enabled(m0, ops),
        0 <= i < j <= ops.len(),
        ops[i] == (Op::Complete { work_id: id, now: t }),
        complete_step(state_at(m0, ops, i), id, t).1 is Ok,
    ensures
        !state_at(m0, ops, j).queued_has_id(id),
{
    lemma_retired_after_complete(m0, ops, i, j, id, t);
}

} // verus!
