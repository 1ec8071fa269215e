use events_backend::registry::{EventError, Registry};

fn s(x: &str) -> String {
    x.to_string()
}

fn addresses(reg: &Registry, id: u64) -> Vec<String> {
    reg.get_event(id)
        .expect("event must exist")
        .participants
        .iter()
        .map(|p| p.address.clone())
        .collect()
}

#[test]
fn scenario_create_join_cancel() {
    let mut reg = Registry::new();
    assert_eq!(reg.create_event(s("Conf"), s("2025-01-01")), Ok(()));
    assert_eq!(
        reg.create_event(s("Conf"), s("2025-01-01")),
        Err(EventError::AlreadyExists)
    );
    assert_eq!(reg.join_event(0, s("alice")), Ok(()));
    assert_eq!(reg.join_event(0, s("alice")), Err(EventError::AlreadyJoined));
    assert_eq!(reg.cancel_joined_event(0, s("alice")), Ok(()));
    assert_eq!(
        reg.cancel_joined_event(0, s("alice")),
        Err(EventError::CancelJoinError)
    );
}

#[test]
fn create_rejects_duplicate_pair_only() {
    let mut reg = Registry::new();
    assert_eq!(reg.create_event(s("Conf"), s("2025-01-01")), Ok(()));
    // Same name, other date: a different pair, so it is accepted.
    assert_eq!(reg.create_event(s("Conf"), s("2025-01-02")), Ok(()));
    // Other name, same date: accepted as well.
    assert_eq!(reg.create_event(s("Fair"), s("2025-01-01")), Ok(()));
    // The exact pair again: rejected, registry unchanged.
    assert_eq!(
        reg.create_event(s("Conf"), s("2025-01-02")),
        Err(EventError::AlreadyExists)
    );
    assert_eq!(reg.count(), 3);
}

#[test]
fn create_assigns_sequential_ids() {
    let mut reg = Registry::new();
    assert_eq!(reg.count(), 0);
    assert_eq!(reg.create_event(s("a"), s("1")), Ok(()));
    assert_eq!(reg.create_event(s("b"), s("2")), Ok(()));
    assert_eq!(reg.create_event(s("c"), s("3")), Ok(()));
    assert_eq!(reg.count(), 3);
    assert_eq!(reg.get_event(0).unwrap().name, "a");
    assert_eq!(reg.get_event(1).unwrap().name, "b");
    assert_eq!(reg.get_event(2).unwrap().name, "c");
    assert!(reg.get_event(3).is_none());
}

#[test]
fn join_keeps_address_exactly_once() {
    let mut reg = Registry::new();
    assert_eq!(reg.create_event(s("Conf"), s("2025-01-01")), Ok(()));
    assert_eq!(reg.join_event(0, s("alice")), Ok(()));
    assert_eq!(reg.join_event(0, s("bob")), Ok(()));
    assert_eq!(reg.join_event(0, s("alice")), Err(EventError::AlreadyJoined));
    assert_eq!(addresses(&reg, 0), vec![s("alice"), s("bob")]);
}

#[test]
fn cancel_removes_only_the_given_address() {
    let mut reg = Registry::new();
    assert_eq!(reg.create_event(s("Conf"), s("2025-01-01")), Ok(()));
    assert_eq!(reg.join_event(0, s("a")), Ok(()));
    assert_eq!(reg.join_event(0, s("b")), Ok(()));
    assert_eq!(reg.join_event(0, s("c")), Ok(()));
    assert_eq!(reg.cancel_joined_event(0, s("b")), Ok(()));
    assert_eq!(addresses(&reg, 0), vec![s("a"), s("c")]);
    assert_eq!(
        reg.cancel_joined_event(0, s("b")),
        Err(EventError::CancelJoinError)
    );
    assert_eq!(addresses(&reg, 0), vec![s("a"), s("c")]);
}

#[test]
fn operations_on_missing_event_fail() {
    let mut reg = Registry::new();
    assert_eq!(reg.join_event(7, s("alice")), Err(EventError::NoSuchEvent));
    assert_eq!(
        reg.cancel_joined_event(7, s("alice")),
        Err(EventError::NoSuchEvent)
    );
    assert!(reg.get_event(7).is_none());
    assert_eq!(reg.count(), 0);
    // With one event present, other identifiers still miss.
    assert_eq!(reg.create_event(s("Conf"), s("2025-01-01")), Ok(()));
    assert_eq!(reg.join_event(1, s("alice")), Err(EventError::NoSuchEvent));
    assert_eq!(
        reg.cancel_joined_event(1, s("alice")),
        Err(EventError::NoSuchEvent)
    );
}

#[test]
fn joins_to_distinct_events_are_independent() {
    let mut reg = Registry::new();
    assert_eq!(reg.create_event(s("Conf"), s("2025-01-01")), Ok(()));
    assert_eq!(reg.create_event(s("Fair"), s("2025-06-01")), Ok(()));
    assert_eq!(reg.join_event(0, s("alice")), Ok(()));
    assert_eq!(reg.join_event(1, s("alice")), Ok(()));
    assert_eq!(addresses(&reg, 0), vec![s("alice")]);
    assert_eq!(addresses(&reg, 1), vec![s("alice")]);
}
