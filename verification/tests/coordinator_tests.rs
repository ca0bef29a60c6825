use work_coordinator::coordinator::CoordinatorImpl;
use work_coordinator::item::{CoordError, WorkItem};

fn item(size: u64, complexity: u64) -> WorkItem {
    WorkItem { size, complexity }
}

#[test]
fn fresh_coordinator_is_empty() {
    let c = CoordinatorImpl::new();
    let (queued, logs) = c.get_summary();
    assert!(queued.is_empty());
    assert!(logs.is_empty());
}

#[test]
fn enqueue_without_item_is_rejected_and_queue_unchanged() {
    let mut c = CoordinatorImpl::new();
    c.add_work(Some(item(4, 5))).unwrap();
    let r = c.add_work(None);
    assert_eq!(r, Err(CoordError::InvalidInput));
    let (queued, _) = c.get_summary();
    assert_eq!(queued, vec![item(4, 5)]);
}

#[test]
fn lease_on_empty_queue_returns_none() {
    let mut c = CoordinatorImpl::new();
    assert_eq!(c.get_work("w".to_string()), None);
}

#[test]
fn leases_come_back_in_arrival_order() {
    let mut c = CoordinatorImpl::new();
    let items = [item(1, 1), item(2, 2), item(3, 3), item(4, 4)];
    let mut ids = Vec::new();
    for it in items.iter() {
        ids.push(c.add_work(Some(*it)).unwrap());
    }
    for (k, it) in items.iter().enumerate() {
        let (id, got) = c.get_work(format!("worker-{}", k % 2)).unwrap();
        assert_eq!(id, ids[k]);
        assert_eq!(got, *it);
    }
    assert_eq!(c.get_work("worker-0".to_string()), None);
}

#[test]
fn minted_ids_are_all_distinct() {
    let mut c = CoordinatorImpl::new();
    let mut ids = Vec::new();
    for k in 0..10u64 {
        ids.push(c.add_work(Some(item(k, k))).unwrap());
    }
    for a in 0..ids.len() {
        for b in (a + 1)..ids.len() {
            assert_ne!(ids[a], ids[b]);
        }
    }
}

#[test]
fn lease_complete_scenario() {
    let mut c = CoordinatorImpl::new();
    let a = item(2, 3);
    let b = item(1, 1);
    c.add_work(Some(a)).unwrap();
    c.add_work(Some(b)).unwrap();

    let (a_id, got_a) = c.get_work("alice".to_string()).unwrap();
    assert_eq!(got_a, a);
    let (_b_id, got_b) = c.get_work("bob".to_string()).unwrap();
    assert_eq!(got_b, b);
    assert_eq!(c.get_work("carol".to_string()), None);

    assert_eq!(c.work_completed(a_id, 100), Ok(()));
    assert_eq!(c.work_completed(a_id, 101), Err(CoordError::UnknownWorkId));

    let (queued, logs) = c.get_summary();
    assert!(queued.is_empty());
    assert_eq!(logs.len(), 1);
    assert_eq!(logs[0].worker_name, "alice");
    assert_eq!(logs[0].work_completed, vec![a]);
}

#[test]
fn completing_a_never_issued_id_is_rejected_without_side_effects() {
    let mut c = CoordinatorImpl::new();
    c.add_work(Some(item(7, 7))).unwrap();
    assert_eq!(c.work_completed(999, 5), Err(CoordError::UnknownWorkId));
    let (queued, logs) = c.get_summary();
    assert_eq!(queued, vec![item(7, 7)]);
    assert!(logs.is_empty());
}

#[test]
fn completing_a_queued_but_unleased_id_is_rejected() {
    let mut c = CoordinatorImpl::new();
    let id = c.add_work(Some(item(1, 2))).unwrap();
    assert_eq!(c.work_completed(id, 0), Err(CoordError::UnknownWorkId));
    let (queued, _) = c.get_summary();
    assert_eq!(queued, vec![item(1, 2)]);
}

#[test]
fn records_inside_the_window_survive_later_completions() {
    let mut c = CoordinatorImpl::new();
    c.add_work(Some(item(1, 1))).unwrap();
    c.add_work(Some(item(2, 2))).unwrap();
    let (id1, _) = c.get_work("early".to_string()).unwrap();
    let (id2, _) = c.get_work("late".to_string()).unwrap();
    assert_eq!(c.work_completed(id1, 0), Ok(()));
    // 59 seconds later: still inside the 60-second window.
    assert_eq!(c.work_completed(id2, 59), Ok(()));
    let (_, logs) = c.get_summary();
    assert_eq!(logs.len(), 2);
    assert_eq!(logs[0].worker_name, "early");
    assert_eq!(logs[0].work_completed, vec![item(1, 1)]);
    assert_eq!(logs[1].worker_name, "late");
    assert_eq!(logs[1].work_completed, vec![item(2, 2)]);
}

#[test]
fn records_outside_the_window_are_pruned_by_the_next_write() {
    let mut c = CoordinatorImpl::new();
    c.add_work(Some(item(1, 1))).unwrap();
    c.add_work(Some(item(2, 2))).unwrap();
    let (id1, _) = c.get_work("early".to_string()).unwrap();
    let (id2, _) = c.get_work("late".to_string()).unwrap();
    assert_eq!(c.work_completed(id1, 0), Ok(()));
    // 60 seconds later: the first record's window has passed, and this
    // write prunes it.
    assert_eq!(c.work_completed(id2, 60), Ok(()));
    let (_, logs) = c.get_summary();
    let early = logs.iter().find(|l| l.worker_name == "early").unwrap();
    assert!(early.work_completed.is_empty());
    let late = logs.iter().find(|l| l.worker_name == "late").unwrap();
    assert_eq!(late.work_completed, vec![item(2, 2)]);
}

#[test]
fn one_worker_accumulates_records_in_completion_order() {
    let mut c = CoordinatorImpl::new();
    for k in 1..=3u64 {
        c.add_work(Some(item(k, k))).unwrap();
    }
    let mut ids = Vec::new();
    for _ in 0..3 {
        let (id, _) = c.get_work("solo".to_string()).unwrap();
        ids.push(id);
    }
    for (k, id) in ids.iter().enumerate() {
        assert_eq!(c.work_completed(*id, k as u64), Ok(()));
    }
    let (_, logs) = c.get_summary();
    assert_eq!(logs.len(), 1);
    assert_eq!(
        logs[0].work_completed,
        vec![item(1, 1), item(2, 2), item(3, 3)]
    );
}

#[test]
fn summary_reports_queued_items_without_leased_ones() {
    let mut c = CoordinatorImpl::new();
    c.add_work(Some(item(1, 1))).unwrap();
    c.add_work(Some(item(2, 2))).unwrap();
    c.add_work(Some(item(3, 3))).unwrap();
    let _ = c.get_work("w".to_string()).unwrap();
    let (queued, logs) = c.get_summary();
    assert_eq!(queued, vec![item(2, 2), item(3, 3)]);
    assert!(logs.is_empty());
}

#[test]
fn empty_worker_name_is_accepted() {
    let mut c = CoordinatorImpl::new();
    c.add_work(Some(item(9, 9))).unwrap();
    let (id, _) = c.get_work(String::new()).unwrap();
    assert_eq!(c.work_completed(id, 1), Ok(()));
    let (_, logs) = c.get_summary();
    assert_eq!(logs.len(), 1);
    assert_eq!(logs[0].worker_name, "");
}
