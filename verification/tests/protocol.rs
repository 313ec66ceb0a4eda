use std::sync::atomic::Ordering;

use flize::{Atomic, Collector, Shared};
use lockfree_stack::protocol::{Action, Event, Order, PopOp, PushOp, NULL};

fn ordering(order: Order) -> Ordering {
    match order {
        Order::Relaxed => Ordering::Relaxed,
        Order::Acquire => Ordering::Acquire,
    }
}

#[test]
fn null_is_zero() {
    assert_eq!(NULL, 0);
}

#[test]
fn push_walks_through_its_actions() {
    let op = PushOp::begin();
    assert_eq!(op, PushOp::Init);
    assert_eq!(op.action(), Action::Protect);
    assert!(!op.is_finished());

    let op = op.step(Event::Protected);
    assert_eq!(op, PushOp::Shielded);
    assert_eq!(op.action(), Action::Allocate);

    let op = op.step(Event::Allocated { node: 64 });
    assert_eq!(op, PushOp::Ready { node: 64 });
    assert_eq!(op.action(), Action::LoadHead { order: Order::Relaxed });

    let op = op.step(Event::Head { value: 32 });
    assert_eq!(op, PushOp::Snapshot { node: 64, head: 32 });
    assert_eq!(
        op.action(),
        Action::StoreNext { node: 64, next: 32, order: Order::Relaxed }
    );

    let op = op.step(Event::Stored);
    assert_eq!(op, PushOp::Linked { node: 64, head: 32 });
    assert_eq!(
        op.action(),
        Action::CasHead {
            expected: 32,
            new: 64,
            success: Order::Acquire,
            failure: Order::Relaxed
        }
    );
    assert!(!op.is_finished());

    let op = op.step(Event::Swapped);
    assert_eq!(op, PushOp::Done { node: 64 });
    assert_eq!(op.action(), Action::Finish);
    assert!(op.is_finished());
}

#[test]
fn push_onto_empty_links_to_null() {
    let op = PushOp::Ready { node: 8 }.step(Event::Head { value: NULL });
    assert_eq!(op, PushOp::Snapshot { node: 8, head: NULL });
    let op = op.step(Event::Stored);
    assert_eq!(
        op.action(),
        Action::CasHead {
            expected: NULL,
            new: 8,
            success: Order::Acquire,
            failure: Order::Relaxed
        }
    );
}

#[test]
fn failed_swap_retries_push_with_the_same_node() {
    let op = PushOp::Linked { node: 64, head: 32 };
    let op = op.step(Event::Contended { current: 48 });
    assert_eq!(op, PushOp::Ready { node: 64 });
    assert_eq!(op.action(), Action::LoadHead { order: Order::Relaxed });
    let op = op.step(Event::Head { value: 48 });
    let op = op.step(Event::Stored);
    assert_eq!(op, PushOp::Linked { node: 64, head: 48 });
    let op = op.step(Event::Contended { current: 16 });
    let op = op.step(Event::Head { value: 16 });
    let op = op.step(Event::Stored);
    let op = op.step(Event::Swapped);
    assert_eq!(op, PushOp::Done { node: 64 });
}

#[test]
fn push_ignores_an_allocation_at_null() {
    let op = PushOp::Shielded.step(Event::Allocated { node: NULL });
    assert_eq!(op, PushOp::Shielded);
}

#[test]
fn push_ignores_events_it_did_not_ask_for() {
    let states = [
        PushOp::Init,
        PushOp::Shielded,
        PushOp::Ready { node: 8 },
        PushOp::Snapshot { node: 8, head: 16 },
        PushOp::Linked { node: 8, head: 16 },
        PushOp::Done { node: 8 },
    ];
    for state in states {
        assert_eq!(state.step(Event::Retired), state);
        assert_eq!(state.step(Event::Taken), state);
        assert_eq!(state.step(Event::Next { value: 24 }), state);
        assert_eq!(state.step(Event::Released), state);
    }
    assert_eq!(PushOp::Init.step(Event::Swapped), PushOp::Init);
    assert_eq!(PushOp::Ready { node: 8 }.step(Event::Stored), PushOp::Ready { node: 8 });
    assert_eq!(
        PushOp::Done { node: 8 }.step(Event::Contended { current: 1 }),
        PushOp::Done { node: 8 }
    );
}

#[test]
fn pop_walks_through_its_actions() {
    let op = PopOp::begin();
    assert_eq!(op, PopOp::Init);
    assert_eq!(op.action(), Action::Protect);

    let op = op.step(Event::Protected);
    assert_eq!(op, PopOp::Shielded);
    assert_eq!(op.action(), Action::LoadHead { order: Order::Acquire });

    let op = op.step(Event::Head { value: 64 });
    assert_eq!(op, PopOp::Probing { head: 64 });
    assert_eq!(op.action(), Action::LoadNext { node: 64, order: Order::Relaxed });

    let op = op.step(Event::Next { value: 32 });
    assert_eq!(op, PopOp::Swapping { head: 64, next: 32 });
    assert_eq!(
        op.action(),
        Action::CasHead {
            expected: 64,
            new: 32,
            success: Order::Acquire,
            failure: Order::Relaxed
        }
    );

    let op = op.step(Event::Swapped);
    assert_eq!(op, PopOp::Unlinked { node: 64 });
    assert_eq!(op.action(), Action::Retire { node: 64 });
    assert!(!op.is_finished());

    let op = op.step(Event::Retired);
    assert_eq!(op, PopOp::Retired { node: 64 });
    assert_eq!(op.action(), Action::TakeData { node: 64 });

    let op = op.step(Event::Taken);
    assert_eq!(op, PopOp::Taken { node: 64 });
    assert_eq!(op.action(), Action::Finish);
    assert!(op.is_finished());
}

#[test]
fn pop_of_a_null_head_is_empty() {
    let op = PopOp::Shielded.step(Event::Head { value: NULL });
    assert_eq!(op, PopOp::Empty);
    assert_eq!(op.action(), Action::Finish);
    assert!(op.is_finished());
}

#[test]
fn failed_swap_retries_pop_from_the_head() {
    let op = PopOp::Swapping { head: 64, next: 32 };
    let op = op.step(Event::Contended { current: 48 });
    assert_eq!(op, PopOp::Shielded);
    assert_eq!(op.action(), Action::LoadHead { order: Order::Acquire });
    let op = op.step(Event::Head { value: 48 });
    assert_eq!(op, PopOp::Probing { head: 48 });
}

#[test]
fn pop_ignores_events_it_did_not_ask_for() {
    let states = [
        PopOp::Init,
        PopOp::Shielded,
        PopOp::Probing { head: 8 },
        PopOp::Swapping { head: 8, next: 16 },
        PopOp::Unlinked { node: 8 },
        PopOp::Retired { node: 8 },
        PopOp::Taken { node: 8 },
        PopOp::Empty,
    ];
    for state in states {
        assert_eq!(state.step(Event::Stored), state);
        assert_eq!(state.step(Event::Allocated { node: 24 }), state);
        assert_eq!(state.step(Event::Released), state);
    }
    assert_eq!(PopOp::Unlinked { node: 8 }.step(Event::Taken), PopOp::Unlinked { node: 8 });
    assert_eq!(PopOp::Retired { node: 8 }.step(Event::Retired), PopOp::Retired { node: 8 });
    assert_eq!(PopOp::Empty.step(Event::Head { value: 8 }), PopOp::Empty);
}

#[test]
fn null_is_the_null_of_the_shared_head() {
    let collector = Collector::new();
    let shield = collector.thin_shield();
    let head: Atomic<u64> = Atomic::null();
    assert_eq!(head.load(Ordering::Acquire, &shield).into_raw(), NULL);
    assert_eq!(Shared::<u64>::null().into_raw(), NULL);
    assert!(head.load(Ordering::Relaxed, &shield).is_null());
}

#[test]
fn pop_on_a_shared_head_that_was_never_pushed_to_is_empty_every_time() {
    let collector = Collector::new();
    let head: Atomic<u64> = Atomic::null();
    for _ in 0..100 {
        let mut guard = None;
        let mut op = PopOp::begin();
        let mut actions = Vec::new();
        loop {
            let action = op.action();
            actions.push(action);
            let event = match action {
                Action::Protect => {
                    guard = Some(collector.thin_shield());
                    Event::Protected
                }
                Action::LoadHead { order } => Event::Head {
                    value: head.load(ordering(order), guard.as_ref().unwrap()).into_raw(),
                },
                Action::Finish => {
                    guard = None;
                    break;
                }
                other => panic!("an empty stack was asked for {:?}", other),
            };
            op = op.step(event);
        }
        assert!(guard.is_none());
        assert_eq!(op, PopOp::Empty);
        assert_eq!(
            actions,
            vec![
                Action::Protect,
                Action::LoadHead { order: Order::Acquire },
                Action::Finish
            ]
        );
        let shield = collector.thin_shield();
        assert!(head.load(Ordering::Acquire, &shield).is_null());
    }
}
