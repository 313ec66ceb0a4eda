use std::time;

use lockfree_stack::Stack;

#[test]
fn push_items() {
    let mut stack = Stack::new();

    stack.push(10);
    stack.push(5);
    stack.push(1);

    assert_eq!(stack.pop().unwrap(), 1);
    assert_eq!(stack.pop().unwrap(), 5);
    assert_eq!(stack.pop().unwrap(), 10);
}

#[test]
fn single_run() {
    let mut stack = Stack::new();
    let now = time::Instant::now();

    const RUNS: i32 = 10_000_000;

    for _i in 0..RUNS {
        stack.push(11);
    }

    for _i in 0..RUNS {
        assert_eq!(stack.pop().unwrap(), 11);
    }

    println!(
        "It took {:?} to write and read {} messages",
        now.elapsed(),
        RUNS
    );
}

#[test]
fn pop_on_a_new_stack_is_empty_every_time() {
    let mut stack: Stack<i32> = Stack::new();
    for _ in 0..1000 {
        assert_eq!(stack.pop(), None);
    }
    stack.push(3);
    assert_eq!(stack.pop(), Some(3));
}

#[test]
fn drained_stack_reports_empty_repeatedly() {
    let mut stack = Stack::new();
    for v in 0..100 {
        stack.push(v);
    }
    for _ in 0..100 {
        assert!(stack.pop().is_some());
    }
    assert_eq!(stack.pop(), None);
    assert_eq!(stack.pop(), None);
    assert_eq!(stack.pop(), None);
}

#[test]
fn pops_return_pushes_in_reverse() {
    let values: Vec<u64> = (0..5000).map(|i| i * 7 + 3).collect();
    let mut stack = Stack::new();
    for v in values.iter() {
        stack.push(*v);
    }
    let mut out = Vec::new();
    for _ in 0..values.len() {
        out.push(stack.pop().unwrap());
    }
    let mut reversed = values.clone();
    reversed.reverse();
    assert_eq!(out, reversed);
    assert_eq!(stack.pop(), None);
}

#[test]
fn pushes_onto_a_filled_stack_come_off_first() {
    let mut stack = Stack::new();
    stack.push(1);
    stack.push(2);
    stack.push(30);
    stack.push(40);
    assert_eq!(stack.pop(), Some(40));
    assert_eq!(stack.pop(), Some(30));
    assert_eq!(stack.pop(), Some(2));
    assert_eq!(stack.pop(), Some(1));
    assert_eq!(stack.pop(), None);
}

#[test]
fn pushes_and_pops_may_alternate() {
    let mut stack = Stack::new();
    stack.push(1);
    stack.push(2);
    assert_eq!(stack.pop(), Some(2));
    stack.push(3);
    assert_eq!(stack.pop(), Some(3));
    assert_eq!(stack.pop(), Some(1));
    assert_eq!(stack.pop(), None);
    stack.push(4);
    assert_eq!(stack.pop(), Some(4));
    assert_eq!(stack.pop(), None);
}

#[test]
fn zero_is_a_value_not_empty() {
    let mut stack = Stack::new();
    stack.push(0);
    assert_eq!(stack.pop(), Some(0));
    assert_eq!(stack.pop(), None);

    let mut words: Stack<String> = Stack::new();
    words.push(String::new());
    assert_eq!(words.pop(), Some(String::new()));
    assert_eq!(words.pop(), None);
}

#[test]
fn values_are_moved_in_and_out() {
    let mut stack: Stack<String> = Stack::new();
    stack.push(String::from("bottom"));
    stack.push(String::from("middle"));
    stack.push(String::from("top"));
    assert_eq!(stack.pop().unwrap(), "top");
    assert_eq!(stack.pop().unwrap(), "middle");
    stack.push(String::from("again"));
    assert_eq!(stack.pop().unwrap(), "again");
    assert_eq!(stack.pop().unwrap(), "bottom");
    assert!(stack.pop().is_none());
}

#[test]
fn every_pushed_value_is_popped_once() {
    let mut stack = Stack::new();
    let k = 4;
    let m = 250;
    for producer in 0..k {
        for i in 0..m {
            stack.push(producer * m + i);
        }
    }
    let mut seen = vec![0u32; k * m];
    let mut succeeded = 0;
    while let Some(v) = stack.pop() {
        seen[v] += 1;
        succeeded += 1;
    }
    assert_eq!(succeeded, k * m);
    assert!(seen.iter().all(|count| *count == 1));
    assert_eq!(stack.pop(), None);
}

#[test]
fn push_pop_pairs_keep_the_order_below() {
    let mut stack = Stack::new();
    stack.push(-1);
    stack.push(-2);
    for i in 0..100_000 {
        stack.push(i);
        assert_eq!(stack.pop(), Some(i));
    }
    assert_eq!(stack.pop(), Some(-2));
    assert_eq!(stack.pop(), Some(-1));
    assert_eq!(stack.pop(), None);
}
