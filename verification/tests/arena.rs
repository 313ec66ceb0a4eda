use std::time;

use lockfree_stack::arena::Arena;
use lockfree_stack::protocol::{Action, Event, Order, PopOp, PushOp, NULL};

/// One thread inside `push`: its operation and what it has in hand.
struct Pusher {
    op: PushOp,
    hand: Option<i32>,
}

/// One thread inside `pop`.
struct Popper {
    op: PopOp,
    hand: Option<i32>,
}

fn pusher(value: i32) -> Pusher {
    Pusher { op: PushOp::begin(), hand: Some(value) }
}

fn popper() -> Popper {
    Popper { op: PopOp::begin(), hand: None }
}

/// Lets the thread perform its pending action; true once it has returned.
fn step_push(arena: &mut Arena<i32>, thread: &mut Pusher) -> bool {
    let event = arena
        .perform(thread.op.action(), &mut thread.hand)
        .expect("a push never touches a node that is gone");
    thread.op = thread.op.step(event);
    event == Event::Released
}

fn step_pop(arena: &mut Arena<i32>, thread: &mut Popper) -> bool {
    let event = arena
        .perform(thread.op.action(), &mut thread.hand)
        .expect("a pop never touches a node that is gone");
    thread.op = thread.op.step(event);
    event == Event::Released
}

fn run_push(arena: &mut Arena<i32>, value: i32) {
    let mut thread = pusher(value);
    while !step_push(arena, &mut thread) {}
}

fn run_pop(arena: &mut Arena<i32>) -> Option<i32> {
    let mut thread = popper();
    while !step_pop(arena, &mut thread) {}
    thread.hand
}

fn head(arena: &mut Arena<i32>) -> usize {
    match arena.perform(Action::LoadHead { order: Order::Acquire }, &mut None) {
        Some(Event::Head { value }) => value,
        other => panic!("reading the head gave {:?}", other),
    }
}

#[test]
fn thread_test() {
    const RUNS: i32 = 1;

    let mut arena = Arena::new();

    let now = time::Instant::now();

    // Two threads push at the same time: their steps alternate.
    let mut first: Vec<Pusher> = (0..RUNS).map(|_| pusher(1)).collect();
    let mut second: Vec<Pusher> = (0..RUNS).map(|_| pusher(1)).collect();
    for (a, b) in first.iter_mut().zip(second.iter_mut()) {
        let mut a_done = false;
        let mut b_done = false;
        while !(a_done && b_done) {
            if !a_done {
                a_done = step_push(&mut arena, a);
            }
            if !b_done {
                b_done = step_push(&mut arena, b);
            }
        }
    }

    let mut count = 0;
    for _ in 0..RUNS * 2 {
        count += run_pop(&mut arena).unwrap();
    }

    println!(
        "It took {:?} to write and read {} messages",
        now.elapsed(),
        RUNS * 2
    );

    assert_eq!(count, RUNS * 2);
    assert_eq!(run_pop(&mut arena), None);
}

#[test]
fn a_new_arena_has_a_null_head() {
    let mut arena: Arena<i32> = Arena::new();
    assert_eq!(head(&mut arena), NULL);
    assert_eq!(run_pop(&mut arena), None);
    assert_eq!(head(&mut arena), NULL);
}

#[test]
fn allocation_takes_the_value_and_gives_a_fresh_address() {
    let mut arena = Arena::new();
    let mut hand = Some(7);
    let first = match arena.perform(Action::Allocate, &mut hand) {
        Some(Event::Allocated { node }) => node,
        other => panic!("allocation gave {:?}", other),
    };
    assert_eq!(hand, None);
    assert_ne!(first, NULL);

    // With nothing in hand there is nothing to allocate.
    assert_eq!(arena.perform(Action::Allocate, &mut hand), None);

    let mut hand = Some(8);
    let second = match arena.perform(Action::Allocate, &mut hand) {
        Some(Event::Allocated { node }) => node,
        other => panic!("allocation gave {:?}", other),
    };
    assert_ne!(second, NULL);
    assert_ne!(second, first);

    // A new node has a null link.
    assert_eq!(
        arena.perform(Action::LoadNext { node: first, order: Order::Relaxed }, &mut hand),
        Some(Event::Next { value: NULL })
    );
}

#[test]
fn links_and_head_hold_what_was_written() {
    let mut arena = Arena::new();
    let mut hand = Some(7);
    let node = match arena.perform(Action::Allocate, &mut hand) {
        Some(Event::Allocated { node }) => node,
        other => panic!("allocation gave {:?}", other),
    };
    assert_eq!(
        arena.perform(Action::StoreNext { node, next: 99, order: Order::Relaxed }, &mut hand),
        Some(Event::Stored)
    );
    assert_eq!(
        arena.perform(Action::LoadNext { node, order: Order::Relaxed }, &mut hand),
        Some(Event::Next { value: 99 })
    );
    let swap = |expected, new| Action::CasHead {
        expected,
        new,
        success: Order::Acquire,
        failure: Order::Relaxed,
    };
    assert_eq!(
        arena.perform(swap(5, node), &mut hand),
        Some(Event::Contended { current: NULL })
    );
    assert_eq!(head(&mut arena), NULL);
    assert_eq!(arena.perform(swap(NULL, node), &mut hand), Some(Event::Swapped));
    assert_eq!(head(&mut arena), node);
    assert_eq!(
        arena.perform(swap(NULL, 3), &mut hand),
        Some(Event::Contended { current: node })
    );
    assert_eq!(head(&mut arena), node);
}

#[test]
fn a_node_that_does_not_exist_cannot_be_touched() {
    let mut arena: Arena<i32> = Arena::new();
    let mut hand = None;
    for node in [NULL, 1, 2, usize::MAX] {
        assert_eq!(
            arena.perform(Action::LoadNext { node, order: Order::Relaxed }, &mut hand),
            None
        );
        assert_eq!(
            arena.perform(Action::StoreNext { node, next: 1, order: Order::Relaxed }, &mut hand),
            None
        );
        assert_eq!(arena.perform(Action::Retire { node }, &mut hand), None);
        assert_eq!(arena.perform(Action::TakeData { node }, &mut hand), None);
    }
    assert_eq!(hand, None);
}

#[test]
fn a_shield_is_released_only_while_one_is_held() {
    let mut arena: Arena<i32> = Arena::new();
    let mut hand = None;
    assert_eq!(arena.perform(Action::Finish, &mut hand), None);
    assert_eq!(arena.perform(Action::Protect, &mut hand), Some(Event::Protected));
    assert_eq!(arena.perform(Action::Protect, &mut hand), Some(Event::Protected));
    assert_eq!(arena.perform(Action::Finish, &mut hand), Some(Event::Released));
    assert_eq!(arena.perform(Action::Finish, &mut hand), Some(Event::Released));
    assert_eq!(arena.perform(Action::Finish, &mut hand), None);
}

#[test]
fn a_value_is_taken_once_and_a_node_retired_once() {
    let mut arena = Arena::new();
    let mut hand = Some(41);
    arena.perform(Action::Protect, &mut None).unwrap();
    let node = match arena.perform(Action::Allocate, &mut hand) {
        Some(Event::Allocated { node }) => node,
        other => panic!("allocation gave {:?}", other),
    };
    assert_eq!(arena.perform(Action::Retire { node }, &mut hand), Some(Event::Retired));
    assert_eq!(arena.perform(Action::Retire { node }, &mut hand), None);
    assert_eq!(arena.perform(Action::TakeData { node }, &mut hand), Some(Event::Taken));
    assert_eq!(hand, Some(41));
    let mut other = None;
    assert_eq!(arena.perform(Action::TakeData { node }, &mut other), None);
    assert_eq!(other, None);
}

#[test]
fn a_retired_node_lives_until_the_last_shield_goes() {
    let mut arena = Arena::new();
    run_push(&mut arena, 5);
    let top = head(&mut arena);

    // A reader takes its shield and reads the head; then another thread pops
    // the node and returns.
    let mut reader = popper();
    step_pop(&mut arena, &mut reader);
    step_pop(&mut arena, &mut reader);
    assert_eq!(reader.op, PopOp::Probing { head: top });
    let mut fast = popper();
    while !step_pop(&mut arena, &mut fast) {}
    assert_eq!(fast.hand, Some(5));

    // The node is unlinked and retired, yet the reader can still read it.
    assert_eq!(head(&mut arena), NULL);
    assert!(!step_pop(&mut arena, &mut reader));
    assert_eq!(reader.op, PopOp::Swapping { head: top, next: NULL });

    // Its swap fails, it finds the stack empty and returns: now the node goes.
    while !step_pop(&mut arena, &mut reader) {}
    assert_eq!(reader.hand, None);
    assert_eq!(
        arena.perform(Action::LoadNext { node: top, order: Order::Relaxed }, &mut None),
        None
    );
}

#[test]
fn an_address_is_not_reused_while_a_reader_holds_it() {
    let mut arena = Arena::new();
    run_push(&mut arena, 1);
    run_push(&mut arena, 2);
    let top = head(&mut arena);

    // The reader gets as far as knowing the top node and the node below it.
    let mut reader = popper();
    for _ in 0..3 {
        step_pop(&mut arena, &mut reader);
    }
    let below = match reader.op {
        PopOp::Swapping { head, next } => {
            assert_eq!(head, top);
            next
        }
        other => panic!("the reader stands at {:?}", other),
    };

    // Meanwhile both values are popped and two others are pushed.
    assert_eq!(run_pop(&mut arena), Some(2));
    assert_eq!(run_pop(&mut arena), Some(1));
    run_push(&mut arena, 3);
    run_push(&mut arena, 4);

    // No new node sits at the address the reader holds, so its swap fails
    // instead of putting the stale link into the head.
    assert_ne!(head(&mut arena), top);
    assert_ne!(head(&mut arena), below);
    assert!(!step_pop(&mut arena, &mut reader));
    assert_eq!(reader.op, PopOp::Shielded);
    while !step_pop(&mut arena, &mut reader) {}
    assert_eq!(reader.hand, Some(4));
    assert_eq!(run_pop(&mut arena), Some(3));
    assert_eq!(run_pop(&mut arena), None);
}

#[test]
fn freed_addresses_are_handed_out_again() {
    let mut arena = Arena::new();
    run_push(&mut arena, 1);
    let first = head(&mut arena);
    assert_eq!(run_pop(&mut arena), Some(1));
    run_push(&mut arena, 2);
    assert_eq!(head(&mut arena), first);
    assert_eq!(run_pop(&mut arena), Some(2));
}

#[test]
fn a_push_that_loses_the_race_retries_and_lands_on_top() {
    let mut arena = Arena::new();
    let mut slow = pusher(10);
    let mut fast = pusher(20);

    // The slow thread reads the head and links its node to it.
    for _ in 0..4 {
        step_push(&mut arena, &mut slow);
    }
    let node = match slow.op {
        PushOp::Linked { node, head } => {
            assert_eq!(head, NULL);
            node
        }
        other => panic!("the slow push stands at {:?}", other),
    };

    // The fast thread pushes in between.
    while !step_push(&mut arena, &mut fast) {}
    let published = head(&mut arena);
    assert_ne!(published, node);

    // The slow swap fails; the retry uses the same node and links it to the
    // new head.
    assert!(!step_push(&mut arena, &mut slow));
    assert_eq!(slow.op, PushOp::Ready { node });
    step_push(&mut arena, &mut slow);
    assert_eq!(slow.op, PushOp::Snapshot { node, head: published });
    while !step_push(&mut arena, &mut slow) {}
    assert_eq!(head(&mut arena), node);

    assert_eq!(run_pop(&mut arena), Some(10));
    assert_eq!(run_pop(&mut arena), Some(20));
    assert_eq!(run_pop(&mut arena), None);
}

#[test]
fn two_pops_racing_for_one_value_give_it_to_one() {
    let mut arena = Arena::new();
    run_push(&mut arena, 7);
    let mut a = popper();
    let mut b = popper();
    let mut a_done = false;
    let mut b_done = false;
    while !(a_done && b_done) {
        if !a_done {
            a_done = step_pop(&mut arena, &mut a);
        }
        if !b_done {
            b_done = step_pop(&mut arena, &mut b);
        }
    }
    assert_eq!(a.hand, Some(7));
    assert_eq!(b.hand, None);
    assert_eq!(run_pop(&mut arena), None);
}

#[test]
fn interleaved_threads_lose_and_duplicate_nothing() {
    // Four pushers with three values each and two poppers take turns, one
    // action at a time, in an order set by a fixed scramble.
    let mut arena = Arena::new();
    let k = 4;
    let m = 3;
    let mut pushers: Vec<Pusher> = Vec::new();
    let mut pending: Vec<Vec<i32>> = (0..k)
        .map(|p| (0..m).map(|i| (p * m + i) as i32).rev().collect())
        .collect();
    for queue in pending.iter_mut() {
        pushers.push(pusher(queue.pop().unwrap()));
    }
    let mut poppers = vec![popper(), popper()];
    let mut popped: Vec<i32> = Vec::new();
    let mut active = k;
    let mut turn: usize = 12345;
    while active > 0 {
        turn = turn.wrapping_mul(1103515245).wrapping_add(12345) % 2147483648;
        let who = (turn >> 8) % (k + poppers.len());
        if who < k {
            if pushers[who].op == PushOp::Init && pushers[who].hand.is_none() {
                continue;
            }
            if step_push(&mut arena, &mut pushers[who]) {
                match pending[who].pop() {
                    Some(value) => pushers[who] = pusher(value),
                    None => {
                        pushers[who] = Pusher { op: PushOp::Init, hand: None };
                        active -= 1;
                    }
                }
            }
        } else {
            let thread = &mut poppers[who - k];
            if step_pop(&mut arena, thread) {
                if let Some(value) = thread.hand {
                    popped.push(value);
                }
                *thread = popper();
            }
        }
    }
    for thread in poppers.iter_mut() {
        if thread.op != PopOp::Init {
            while !step_pop(&mut arena, thread) {}
            if let Some(value) = thread.hand {
                popped.push(value);
            }
        }
    }
    while let Some(value) = run_pop(&mut arena) {
        popped.push(value);
    }
    assert_eq!(popped.len(), k * m);
    popped.sort();
    let all: Vec<i32> = (0..(k * m) as i32).collect();
    assert_eq!(popped, all);
    assert_eq!(run_pop(&mut arena), None);
}

#[test]
fn every_call_takes_effect_at_its_swap() {
    // Three pushers and three poppers take turns in a scrambled order. A
    // plain vector is pushed to and popped from at the step at which a call
    // takes effect: a swap that succeeds, or a read of a null head. Every
    // pop must return what the vector gave at that step.
    let mut arena = Arena::new();
    let mut oracle: Vec<i32> = Vec::new();
    let mut pushers = vec![pusher(0), pusher(1), pusher(2)];
    let mut poppers = vec![popper(), popper(), popper()];
    let mut expected: Vec<Option<Option<i32>>> = vec![None, None, None];
    let mut pushing: Vec<i32> = vec![0, 1, 2];
    let mut next_value = 3;
    let mut returned = 0;
    let mut turn: usize = 2024;
    for _ in 0..200_000 {
        turn = turn.wrapping_mul(1103515245).wrapping_add(12345) % 2147483648;
        let who = (turn >> 8) % 6;
        if who < 3 {
            let was = pushers[who].op;
            let done = step_push(&mut arena, &mut pushers[who]);
            if let (PushOp::Linked { .. }, PushOp::Done { .. }) = (was, pushers[who].op) {
                oracle.push(pushing[who]);
            }
            if done {
                pushing[who] = next_value;
                pushers[who] = pusher(next_value);
                next_value += 1;
            }
        } else {
            let i = who - 3;
            let was = poppers[i].op;
            let done = step_pop(&mut arena, &mut poppers[i]);
            match (was, poppers[i].op) {
                (PopOp::Swapping { .. }, PopOp::Unlinked { .. }) => {
                    let top = oracle.pop();
                    assert!(top.is_some());
                    expected[i] = Some(top);
                }
                (PopOp::Shielded, PopOp::Empty) => {
                    assert!(oracle.is_empty());
                    expected[i] = Some(None);
                }
                _ => {}
            }
            if done {
                assert_eq!(Some(poppers[i].hand), expected[i]);
                expected[i] = None;
                poppers[i] = popper();
                returned += 1;
            }
        }
    }
    assert!(returned > 1000);
    assert!(next_value > 1000);
}
