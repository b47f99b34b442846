use routine_loader::model::{Exercise, Routine};
use routine_loader::outcome::{LoadOutcome, StoreError};
use routine_loader::scope::{find_row, settle_key, LoadScope, Lookup, ManyOutcome};

fn routine(id: i32, name: &str) -> Routine {
    Routine::new(id, name.to_string())
}

fn found_name(o: Option<LoadOutcome>) -> Option<String> {
    match o {
        Some(LoadOutcome::Found(r)) => Some(r.name().to_string()),
        _ => None,
    }
}

#[test]
fn four_keys_one_dispatch() {
    let mut scope = LoadScope::new();
    for k in [1, 2, 3, 4] {
        assert!(matches!(scope.request(k), Lookup::Queued));
    }
    let keys = scope.dispatch().expect("one fetch");
    let mut sorted = keys.clone();
    sorted.sort();
    assert_eq!(sorted, vec![1, 2, 3, 4]);
    assert!(scope.dispatch().is_none());
    scope.settle(Ok(vec![routine(1, "Squat"), routine(2, "Deadlift"), routine(3, "Row")]));
    assert_eq!(found_name(scope.outcome_of(1)), Some("Squat".to_string()));
    assert_eq!(found_name(scope.outcome_of(2)), Some("Deadlift".to_string()));
    assert_eq!(found_name(scope.outcome_of(3)), Some("Row".to_string()));
    assert!(matches!(scope.outcome_of(4), Some(LoadOutcome::Absent)));
    assert!(scope.dispatch().is_none());
}

#[test]
fn hundred_callers_one_key() {
    let mut scope = LoadScope::new();
    for _ in 0..100 {
        assert!(matches!(scope.request(7), Lookup::Queued));
    }
    assert_eq!(scope.dispatch(), Some(vec![7]));
    scope.settle(Ok(vec![routine(7, "X")]));
    for _ in 0..100 {
        assert_eq!(found_name(scope.outcome_of(7)), Some("X".to_string()));
    }
    assert!(scope.dispatch().is_none());
}

#[test]
fn failed_fetch_reaches_every_caller() {
    let mut scope = LoadScope::new();
    for _ in 0..3 {
        scope.request(5);
    }
    assert_eq!(scope.dispatch(), Some(vec![5]));
    scope.settle(Err(StoreError::new("connection refused".to_string())));
    for _ in 0..3 {
        match scope.outcome_of(5) {
            Some(LoadOutcome::Failed(e)) => assert_eq!(e.message(), "connection refused"),
            _ => panic!("expected the store error"),
        }
    }
    match scope.request(5) {
        Lookup::Ready(LoadOutcome::Failed(e)) => assert_eq!(e.message(), "connection refused"),
        _ => panic!("the error is cached"),
    }
    assert!(scope.dispatch().is_none());
}

#[test]
fn missing_key_is_absent_not_error() {
    let mut scope = LoadScope::new();
    scope.request(42);
    assert_eq!(scope.dispatch(), Some(vec![42]));
    scope.settle(Ok(vec![routine(1, "Squat")]));
    let r = scope.outcome_of(42).unwrap().into_result();
    assert!(matches!(r, Ok(None)));
}

#[test]
fn repeat_request_served_from_cache() {
    let mut scope = LoadScope::new();
    scope.request(3);
    scope.request(3);
    assert_eq!(scope.dispatch(), Some(vec![3]));
    scope.settle(Ok(vec![routine(3, "Row")]));
    match scope.request(3) {
        Lookup::Ready(LoadOutcome::Found(r)) => assert_eq!(r.name(), "Row"),
        _ => panic!("expected a cached entity"),
    }
    assert!(scope.dispatch().is_none());
}

#[test]
fn cached_keys_do_not_reenter_fetch() {
    let mut scope = LoadScope::new();
    scope.request_many(&vec![1, 2]);
    assert_eq!(scope.dispatch(), Some(vec![1, 2]));
    scope.settle(Ok(vec![routine(1, "Squat")]));
    scope.request_many(&vec![1, 2, 3, 3, 4]);
    assert_eq!(scope.dispatch(), Some(vec![3, 4]));
}

#[test]
fn fresh_scope_does_not_see_other_cache() {
    let mut a = LoadScope::new();
    a.request(1);
    a.dispatch();
    a.settle(Ok(vec![routine(1, "Squat")]));
    assert!(a.outcome_of(1).is_some());
    let mut b = LoadScope::new();
    assert!(b.outcome_of(1).is_none());
    assert!(matches!(b.request(1), Lookup::Queued));
    assert_eq!(b.dispatch(), Some(vec![1]));
}

#[test]
fn requests_during_flight_wait_for_next_window() {
    let mut scope = LoadScope::new();
    scope.request(1);
    assert_eq!(scope.dispatch(), Some(vec![1]));
    scope.request(1);
    scope.request(2);
    assert!(scope.dispatch().is_none());
    scope.settle(Ok(vec![routine(1, "Squat"), routine(2, "Deadlift")]));
    assert_eq!(found_name(scope.outcome_of(1)), Some("Squat".to_string()));
    assert!(scope.outcome_of(2).is_none());
    assert_eq!(scope.dispatch(), Some(vec![2]));
}

#[test]
fn dispatch_on_empty_window_is_none() {
    let mut scope = LoadScope::new();
    assert!(scope.dispatch().is_none());
    scope.settle(Ok(vec![]));
    assert!(scope.outcome_of(0).is_none());
}

#[test]
fn load_many_maps_found_keys() {
    let mut scope = LoadScope::new();
    let keys = vec![2, 9, 1, 2];
    scope.request_many(&keys);
    assert!(matches!(scope.collect_many(&keys), ManyOutcome::Pending));
    scope.dispatch();
    scope.settle(Ok(vec![routine(1, "Squat"), routine(2, "Deadlift")]));
    match scope.collect_many(&keys) {
        ManyOutcome::Loaded(v) => {
            let ids: Vec<i32> = v.iter().map(|p| p.0).collect();
            assert_eq!(ids, vec![2, 1]);
            assert_eq!(v[0].1.name(), "Deadlift");
            assert_eq!(v[1].1.name(), "Squat");
        }
        _ => panic!("expected a mapping"),
    }
}

#[test]
fn load_many_reports_store_error() {
    let mut scope = LoadScope::new();
    let keys = vec![8, 9];
    scope.request_many(&keys);
    scope.dispatch();
    scope.settle(Err(StoreError::new("timeout".to_string())));
    match scope.collect_many(&keys) {
        ManyOutcome::Failed(e) => assert_eq!(e.message(), "timeout"),
        _ => panic!("expected the store error"),
    }
}

#[test]
fn last_duplicate_row_wins() {
    let rows = vec![routine(4, "first"), routine(5, "other"), routine(4, "second")];
    assert_eq!(find_row(&rows, 4).unwrap().name(), "second");
    assert!(find_row(&rows, 6).is_none());
    match settle_key(&Ok(rows), 5) {
        LoadOutcome::Found(r) => assert_eq!(r.id(), 5),
        _ => panic!("expected the row"),
    }
}

#[test]
fn into_result_keeps_kinds_apart() {
    assert!(matches!(LoadOutcome::Absent.into_result(), Ok(None)));
    match LoadOutcome::Found(routine(1, "Squat")).into_result() {
        Ok(Some(r)) => assert_eq!(r.name(), "Squat"),
        _ => panic!("expected the entity"),
    }
    assert!(LoadOutcome::Failed(StoreError::new("x".to_string())).into_result().is_err());
}

#[test]
fn exercise_accessors() {
    let e = Exercise::new(3, "Bench".to_string());
    assert_eq!(e.id(), 3);
    assert_eq!(e.name(), "Bench");
    let r = routine(9, "Pull");
    let d = r.duplicate();
    assert_eq!(d.id(), 9);
    assert_eq!(d.name(), "Pull");
}
