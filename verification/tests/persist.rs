use copper::entry::{Entry, DELETE_KEY};
use copper::json::JsonValue;
use copper::persist::{Persist, PersistAction, N};

#[test]
fn temp_file_is_copied_every_nth_round() {
    let mut p = Persist::new();
    assert!(p.is_running());
    for round in 1..=(3 * N) {
        let a = p.next_action();
        if round % N == 0 {
            assert_eq!(a, PersistAction::CopyLogAndTemp, "round {}", round);
        } else {
            assert_eq!(a, PersistAction::CopyLog, "round {}", round);
        }
    }
}

#[test]
fn period_is_fifty_rounds() {
    assert_eq!(N, 50);
    let mut p = Persist::new();
    for _ in 0..49 {
        assert_eq!(p.next_action(), PersistAction::CopyLog);
    }
    assert_eq!(p.next_action(), PersistAction::CopyLogAndTemp);
}

#[test]
fn stopped_controller_finishes() {
    let mut p = Persist::new();
    p.next_action();
    p.stop();
    assert!(!p.is_running());
    assert_eq!(p.next_action(), PersistAction::Finish);
    assert_eq!(p.next_action(), PersistAction::Finish);
}

#[test]
fn test_runs_the_closure_once() {
    let mut calls = 0;
    copper::persist::test(|| calls += 1);
    assert_eq!(calls, 1);
}

#[test]
fn entries_write_their_document() {
    let e = Entry::Delete(JsonValue::I64(3));
    assert_eq!(e.document(), &JsonValue::I64(3));
    let e = Entry::Update(JsonValue::Null);
    assert_eq!(e.document(), &JsonValue::Null);
    let e = Entry::Insert(JsonValue::Boolean(false));
    assert_eq!(e.document(), &JsonValue::Boolean(false));
    assert_eq!(DELETE_KEY, "$$delete");
}

#[test]
fn entries_clone_to_the_same_entry() {
    let e = Entry::Update(JsonValue::String("x".to_string()));
    assert_eq!(e.clone(), e);
}
