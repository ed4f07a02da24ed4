use ruchei::events::{State, Violation};

/// Makes an event that `parent` both blocks and causes, as `next_event` does.
fn next_event(state: &mut State, parent: usize) -> usize {
    let next = state.add_event();
    state.add_block(parent, next);
    state.add_cause(parent, next);
    next
}

/// Makes an event that `parent` blocks and causes, and that a future waits for.
fn next_future(state: &mut State, parent: usize) -> usize {
    let next = next_event(state, parent);
    assert!(!state.causers(next).is_empty());
    state.set_future(next);
    next
}

/// Fires an event that is no longer blocked and that something caused.
fn fire(state: &mut State, event: usize) {
    assert!(!state.blocked(event));
    assert!(state.caused(event));
    state.fire(event);
}

#[test]
fn stuff() {
    let mut state = State::new();
    let root = state.add_event();
    let a_produced = next_future(&mut state, root);
    let a_received = next_event(&mut state, a_produced);
    let b_produced = next_future(&mut state, a_received);
    let b_received = next_event(&mut state, b_produced);

    assert!(state.may_start(root));
    state.fire(root);

    assert!(!state.blocked(a_produced));
    assert!(state.blocked(b_produced));
    fire(&mut state, a_produced);
    fire(&mut state, a_received);
    fire(&mut state, b_produced);
    fire(&mut state, b_received);
    assert_eq!(state.finalize(), None);
}

#[test]
fn events_new_is_empty() {
    let state = State::new();
    assert_eq!(state.finalize(), None);
    assert!(state.may_start(0));
    assert_eq!(state.blockers(0), Vec::<usize>::new());
    assert_eq!(state.causers(0), Vec::<usize>::new());
}

#[test]
fn events_keys_are_fresh() {
    let mut state = State::new();
    let a = state.add_event();
    let b = state.add_event();
    let c = state.add_event();
    assert_ne!(a, b);
    assert_ne!(b, c);
    assert_ne!(a, c);
    assert!(!state.completed(a));
    state.fire(b);
    assert!(state.completed(b));
    assert!(!state.completed(c));
}

#[test]
fn events_edges_in_order() {
    let mut state = State::new();
    let a = state.add_event();
    let b = state.add_event();
    let c = state.add_event();
    state.add_block(a, c);
    state.add_block(b, c);
    state.add_cause(b, c);
    assert_eq!(state.blockers(c), vec![a, b]);
    assert_eq!(state.causers(c), vec![b]);
    assert_eq!(state.blockers(a), Vec::<usize>::new());
    assert!(!state.may_start(c));
    assert!(state.may_start(a));
}

#[test]
fn events_blocked_until_every_blocker_fired() {
    let mut state = State::new();
    let a = state.add_event();
    let b = state.add_event();
    let c = state.add_event();
    state.add_block(a, c);
    state.add_block(b, c);
    assert!(state.blocked(c));
    state.fire(a);
    assert!(state.blocked(c));
    state.fire(b);
    assert!(!state.blocked(c));
}

#[test]
fn events_caused_once_any_causer_fired() {
    let mut state = State::new();
    let a = state.add_event();
    let b = state.add_event();
    let c = state.add_event();
    state.add_cause(a, c);
    state.add_cause(b, c);
    assert!(!state.caused(c));
    state.fire(b);
    assert!(state.caused(c));
}

#[test]
fn events_caused_but_never_fired() {
    let mut state = State::new();
    let root = state.add_event();
    let next = next_event(&mut state, root);
    state.fire(root);
    assert_eq!(state.finalize(), Some((next, Violation::CausedButNeverFired)));
}

#[test]
fn events_future_may_stay_unfired() {
    let mut state = State::new();
    let root = state.add_event();
    let _next = next_future(&mut state, root);
    state.fire(root);
    assert_eq!(state.finalize(), None);
}

#[test]
fn events_caused_but_blocked() {
    let mut state = State::new();
    let root = state.add_event();
    let other = state.add_event();
    let next = state.add_event();
    state.add_cause(root, next);
    state.add_block(other, next);
    state.fire(root);
    assert_eq!(state.finalize(), Some((next, Violation::CausedButBlocked)));
}

#[test]
fn events_first_violation_by_key() {
    let mut state = State::new();
    let root = state.add_event();
    let first = next_event(&mut state, root);
    let second = next_event(&mut state, root);
    state.fire(root);
    assert!(first < second);
    assert_eq!(state.finalize(), Some((first, Violation::CausedButNeverFired)));
    state.fire(first);
    assert_eq!(state.finalize(), Some((second, Violation::CausedButNeverFired)));
    state.fire(second);
    assert_eq!(state.finalize(), None);
}

#[test]
fn events_uncaused_events_never_violate() {
    let mut state = State::new();
    let a = state.add_event();
    let b = state.add_event();
    state.add_block(a, b);
    assert_eq!(state.finalize(), None);
}
