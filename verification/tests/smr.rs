use arctic::concurrent::events::{watch_flush, watch_reclaim};
use arctic::concurrent::map::{ConcurrentMap, Remove, Update, Upsert};
use arctic::concurrent::smr::epoch::Epoch;
use arctic::concurrent::smr::hazard::thread::{Ids, MAX};
use arctic::concurrent::smr::hazard::{is_conflict, Hazard};
use arctic::concurrent::smr::no_op::{NoOp, GARBAGE_THRESHOLD};
use arctic::concurrent::smr::ps_reclaim::{is_due, settle, PsReclaim, RECLAIM_BATCH};
use arctic::concurrent::smr::seize::Seize;
use arctic::concurrent::smr::Smr;
use arctic::concurrent::value::{ArcRef, Value};
use arctic::stat::{Counter, Event, Max, Record};
use std::ops::ControlFlow;
use std::sync::atomic::{AtomicUsize, Ordering};
use std::sync::Arc;

/// Counts how often it is dropped.
struct Canary(Arc<AtomicUsize>);

impl Drop for Canary {
    fn drop(&mut self) {
        self.0.fetch_add(1, Ordering::SeqCst);
    }
}

#[test]
fn leaked_values_are_counted_in_batches() {
    let drops = Arc::new(AtomicUsize::new(0));
    let mut smr = NoOp::default();
    for _ in 0..GARBAGE_THRESHOLD {
        smr.retire(Canary(drops.clone()));
    }
    assert_eq!(smr.garbage(), 0);
    smr.retire(Canary(drops.clone()));
    assert_eq!(smr.garbage(), GARBAGE_THRESHOLD);
    assert_eq!(drops.load(Ordering::SeqCst), 0);
}

#[test]
fn backlog_is_reclaimed_in_batches() {
    let drops = Arc::new(AtomicUsize::new(0));
    let mut smr = PsReclaim::default();
    for _ in 0..RECLAIM_BATCH * 4 {
        smr.retire(Canary(drops.clone()));
    }
    assert!(smr.garbage() < RECLAIM_BATCH as u32);
    let dropped = drops.load(Ordering::SeqCst);
    assert_eq!(dropped + smr.garbage() as usize, RECLAIM_BATCH * 4);

    assert!(!is_due(RECLAIM_BATCH - 1));
    assert!(is_due(RECLAIM_BATCH));
    assert_eq!(settle(300, 256), 44);
    assert_eq!(settle(300, 0), 300);
}

#[test]
fn backlog_grows_by_one_below_the_threshold() {
    let drops = Arc::new(AtomicUsize::new(0));
    let mut smr = PsReclaim::default();
    for count in 1..RECLAIM_BATCH {
        smr.retire(Canary(drops.clone()));
        assert_eq!(smr.garbage(), count as u32);
    }
    assert_eq!(drops.load(Ordering::SeqCst), 0);
}

#[test]
fn guards_hand_over_what_is_retired() {
    let drops = Arc::new(AtomicUsize::new(0));
    let mut smr = PsReclaim::default();
    let guard = smr.guard();
    let guard = guard.retire(Canary(drops.clone()));
    let guard = guard.retire(Canary(drops.clone()));
    assert_eq!(drops.load(Ordering::SeqCst), 0);
    guard.close();
    assert_eq!(smr.garbage(), 2);
}

#[test]
fn retired_values_are_dropped_at_some_time() {
    let drops = Arc::new(AtomicUsize::new(0));
    let mut map = ConcurrentMap::<u64, Canary, Epoch>::default();
    for key in 0..1000 {
        assert!(map.insert(key, Canary(drops.clone())).is_ok());
        map.remove(&key).unwrap().retire();
    }
    for _ in 0..1000 {
        map.smr().guard().flush();
    }
    assert!(drops.load(Ordering::SeqCst) > 0);
    assert_eq!(map.smr().garbage(), 0);
}

#[test]
fn collectors_are_kept() {
    let smr = Seize::default();
    assert_eq!(format!("{:?}", smr.collector), "Collector { batch_size: 256 }");
    let guard = smr.guard();
    assert!(std::ptr::eq(seize::Guard::collector(&guard), &smr.collector));
    drop(guard);
    let collector = smr.into_collector();
    let smr = Seize::from_collector(collector);
    drop(smr.guard());
}

#[test]
fn epoch_guards_belong_to_the_default_collector() {
    let guard = Epoch.guard();
    assert!(guard.collector().is_some());
    assert!(guard.collector() == crossbeam_epoch::pin().collector());
    assert!(crossbeam_epoch::is_pinned());
}

#[test]
fn overlapping_keys_protect_allocations() {
    assert!(is_conflict(&vec![1, 2], &vec![1, 2, 3]));
    assert!(is_conflict(&vec![1, 2, 3], &vec![1, 2]));
    assert!(is_conflict(&vec![], &vec![9]));
    assert!(!is_conflict(&vec![1, 2], &vec![1, 3]));

    let mut smr = Hazard::default().with_reclaim_threshold(1);
    assert_eq!(smr.reclaim_threshold, 1);
    smr.set_membarrier(true);
    assert!(smr.membarrier);

    smr.guard(0, vec![1, 2, 3]);
    smr.retire_node(0, 2, 100);
    smr.retire_value(0, 101);
    // Another operation may still reach the node, but not the value.
    smr.guard(1, vec![1, 2, 4]);
    let freed = smr.release(0);
    assert_eq!(freed.len(), 1);
    assert_eq!(freed[0].raw, 101);
    assert!(freed[0].value);
    assert_eq!(freed[0].prefix, vec![1, 2, 3]);

    let freed = smr.flush(0);
    assert_eq!(freed.len(), 0);
    let _ = smr.release(1);
    let freed = smr.flush(0);
    assert_eq!(freed.len(), 1);
    assert_eq!(freed[0].raw, 100);
    assert!(!freed[0].value);
    assert_eq!(freed[0].prefix, vec![1, 2]);
}

#[test]
fn everything_is_reclaimed_in_the_end() {
    let mut smr = Hazard::default();
    smr.guard(3, vec![7]);
    for value in 0..10 {
        smr.retire_value(3, value);
    }
    let freed = smr.release(3);
    assert_eq!(freed.len(), 0);
    let freed = smr.reclaim(4);
    assert_eq!(freed.iter().map(|retired| retired.raw).collect::<Vec<_>>(), (0..10).collect::<Vec<_>>());
}

#[test]
fn thread_numbers_are_reused() {
    let mut ids = Ids::new();
    assert_eq!(ids.allocate(), Some(0));
    assert_eq!(ids.allocate(), Some(1));
    assert_eq!(ids.allocate(), Some(2));
    ids.release(1);
    ids.release(0);
    assert_eq!(ids.count(), 3);
    assert_eq!(ids.allocate(), Some(0));
    assert_eq!(ids.allocate(), Some(1));
    for id in 3..MAX {
        assert_eq!(ids.allocate(), Some(id));
    }
    assert_eq!(ids.allocate(), None);
}

#[test]
fn values_are_kept_in_words() {
    assert_eq!(u64::from_raw(7u64.into_raw()), 7);
    for value in [0, -1, 1, i64::MIN, i64::MAX] {
        assert_eq!(i64::from_raw(value.into_raw()), value);
    }
    assert_eq!((-1i64).into_raw(), u64::MAX);

    let shared = ArcRef { inner: Arc::new(5) };
    assert_eq!(*shared.get(), 5);
    let owned = shared.to_owned();
    assert_eq!(*owned, 5);
    assert_eq!(Arc::strong_count(&owned), 2);
}

#[test]
fn closures_decide() {
    let mut map = ConcurrentMap::<u64, u64, NoOp>::default();

    match map.upsert_with(1, None, |old: Option<&u64>, _| {
        assert_eq!(old, None);
        ControlFlow::Continue(10)
    }) {
        Upsert::Success(upserted) => {
            assert_eq!(upserted.previous(), None);
            assert_eq!(*upserted.new(), 10);
            assert!(upserted.try_into_inserted().is_ok());
        }
        Upsert::Break { .. } => panic!("unexpected break"),
    }
    match map.upsert_with(1, Some(99), |old: Option<&u64>, initial| {
        assert_eq!(old, Some(&10));
        ControlFlow::Break(initial)
    }) {
        Upsert::Success(_) => panic!("unexpected success"),
        Upsert::Break { old, new } => {
            assert_eq!(old.map(|old| *old.get()), Some(10));
            assert_eq!(new, Some(99));
        }
    }
    match map.update_with(&1, None, |old: &u64, _| ControlFlow::Continue(*old + 1)) {
        Update::Success(updated) => {
            assert_eq!(*updated.previous(), 10);
            assert_eq!(*updated.new(), 11);
        }
        _ => panic!("unexpected outcome"),
    }
    match map.update_with(&2, Some(5), |_: &u64, _| panic!("no value")) {
        Update::Absent { new } => assert_eq!(new, Some(5)),
        _ => panic!("unexpected outcome"),
    }
    match map.remove_with(&1, |_: &u64| ControlFlow::Break(())) {
        Remove::Break { old } => assert_eq!(*old.get(), 11),
        _ => panic!("unexpected outcome"),
    }
    match map.remove_with(&1, |_: &u64| ControlFlow::Continue(())) {
        Remove::Success { old } => assert_eq!(old.into_inner(), 11),
        _ => panic!("unexpected outcome"),
    }
    assert!(matches!(
        map.remove_non_recursive_with(&1, |_: &u64| ControlFlow::Continue(())),
        Remove::Absent
    ));
    assert!(map.insert_with(3, || 30).is_ok());
    match map.insert_with(3, || panic!("the key exists")) {
        Ok(_) => panic!("unexpected success"),
        Err((shared, new)) => {
            assert_eq!(*shared.get(), 30);
            assert!(new.is_none());
        }
    }
    assert!(matches!(map.update(&4, 1), Err(1)));
    match map.update(&3, 31) {
        Ok(updated) => assert_eq!((*updated.previous(), *updated.new()), (30, 31)),
        Err(_) => panic!("the key exists"),
    }
    assert!(map.contains_key(&3));
    assert_eq!(map.into_sequential().get(&3), Some(&31));
}

#[test]
fn replaced_values_are_retired() {
    let drops = Arc::new(AtomicUsize::new(0));
    let mut map = ConcurrentMap::<u64, Canary, PsReclaim>::default();
    // Nothing is replaced by the first value.
    assert_eq!(map.upsert(1, Canary(drops.clone())).retire().get().0.load(Ordering::SeqCst), 0);
    assert_eq!(map.smr().garbage(), 0);
    map.upsert(1, Canary(drops.clone())).retire();
    assert_eq!(map.smr().garbage(), 1);
    match map.update(&1, Canary(drops.clone())) {
        Ok(updated) => {
            updated.retire();
        }
        Err(_) => panic!("the key exists"),
    }
    assert_eq!(map.smr().garbage(), 2);
    match map.remove(&1) {
        Some(owned) => owned.retire(),
        None => panic!("the key exists"),
    }
    assert_eq!(map.smr().garbage(), 3);
}

#[test]
fn hazards_count_garbage_in_batches() {
    let mut smr = Hazard::default().with_reclaim_threshold(4);
    smr.guard(0, vec![1]);
    for value in 0..3 {
        smr.retire_value(0, value);
    }
    assert_eq!(smr.garbage(), 0);
    smr.retire_node(0, 1, 3);
    assert_eq!(smr.garbage(), 4);
    for value in 4..8 {
        smr.retire_value(0, value);
    }
    assert_eq!(smr.garbage(), 8);
    assert_eq!(smr.release(0).len(), 8);
    // What was reclaimed is reported too, but not forgotten.
    assert_eq!(smr.garbage.count, 0);
    assert_eq!(smr.garbage(), 8);
    smr.guard(0, vec![1]);
    for value in 0..5 {
        smr.retire_value(0, value);
    }
    assert_eq!((smr.garbage.count, smr.locals[0].garbage), (4, 1));
    assert_eq!(smr.garbage(), 8);
}

#[test]
fn reclamation_is_reported() {
    let mut smr = Hazard::default();
    smr.guard(0, vec![1, 2, 3]);
    smr.retire_node(0, 2, 100);
    smr.retire_value(0, 101);
    smr.guard(1, vec![1, 2, 4]);
    let retired = smr.locals[0].retired.len();
    let freed = smr.flush(0);
    assert_eq!(freed.len(), 0);
    assert_eq!(
        watch_flush(retired, &freed),
        [
            Event::Most(Max::RetireCache, 2),
            Event::Count(Counter::HazardMatch),
            Event::Count(Counter::HazardMatch),
            Event::Sample(Record::Flush, 0),
        ]
    );
    let _ = smr.release(0);
    let freed = smr.flush(0);
    assert_eq!(
        watch_flush(2, &freed),
        [
            Event::Most(Max::RetireCache, 2),
            Event::Count(Counter::HazardMatch),
            Event::Sample(Record::ReclaimDepth, 3),
            Event::Count(Counter::FreeRetire),
            Event::Sample(Record::Flush, 1),
        ]
    );
    let freed = smr.reclaim(1);
    assert_eq!(watch_reclaim(&freed), [Event::Count(Counter::FreeReclaim)]);
}

/// The node that an operation stands on is not reclaimed while its key is
/// published.
#[test]
fn operations_are_spared() {
    let mut smr = Hazard::default();
    // The other thread has come to the node behind `1, 2`.
    smr.guard(1, vec![1, 2, 9, 9]);
    smr.guard(0, vec![1, 2, 3, 4]);
    smr.retire_node(0, 0, 7);
    smr.retire_node(0, 2, 8);
    smr.retire_node(0, 3, 9);
    let _ = smr.release(0);
    let freed: Vec<u64> = smr.flush(0).iter().map(|retired| retired.raw).collect();
    assert_eq!(freed, [9]);
}
