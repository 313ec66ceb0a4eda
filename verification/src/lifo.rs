//! Laws of the stack as a sequence: what runs of pushes and pops come to.

use vstd::prelude::*;
use crate::atomic::{popped, pushed, top};

verus! {

/// The stack after the values of `values` are pushed, first to last.
pub open spec fn pushed_all<T>(stack: Seq<T>, values: Seq<T>) -> Seq<T>
    decreases values.len(),
{
    if values.len() == 0 {
        stack
    } else {
        pushed(pushed_all(stack, values.drop_last()), values.last())
    }
}

/// What `n` pops leave of `stack`.
pub open spec fn drained<T>(stack: Seq<T>, n: nat) -> Seq<T>
    decreases n,
{
    if n == 0 {
        stack
    } else {
        popped(drained(stack, (n - 1) as nat))
    }
}

/// What `n` pops on `stack` return, first to last.
pub open spec fn yielded<T>(stack: Seq<T>, n: nat) -> Seq<Option<T>>
    decreases n,
{
    if n == 0 {
        Seq::empty()
    } else {
        yielded(stack, (n - 1) as nat).push(top(drained(stack, (n - 1) as nat)))
    }
}

/// Pushing a run of values puts them on top, the last one uppermost.
pub proof fn lemma_pushed_all<T>(stack: Seq<T>, values: Seq<T>)
    ensures
        pushed_all(stack, values) == values.reverse() + stack,
    decreases values.len(),
{
    if values.len() == 0 {
        assert(values.reverse() + stack =~= stack);
    } else {
        lemma_pushed_all(stack, values.drop_last());
        assert(values.reverse() + stack =~= seq![values.last()] + (values.drop_last().reverse()
            + stack));
    }
}

/// `n` pops take the upper `n` values, or all that are there, and return
/// them from the top down; each pop after that returns nothing.
pub proof fn lemma_pops<T>(stack: Seq<T>, n: nat)
    ensures
        drained(stack, n) == if n <= stack.len() {
            stack.subrange(n as int, stack.len() as int)
        } else {
            Seq::empty()
        },
        yielded(stack, n) == Seq::new(
            n,
            |j: int|
                if j < stack.len() {
                    Some(stack[j])
                } else {
                    None
                },
        ),
    decreases n,
{
    let expected = Seq::new(
        n,
        |j: int|
            if j < stack.len() {
                Some(stack[j])
            } else {
                None
            },
    );
    if n == 0 {
        assert(stack.subrange(0, stack.len() as int) =~= stack);
        assert(yielded(stack, n) =~= expected);
    } else {
        let m = (n - 1) as nat;
        lemma_pops(stack, m);
        let before = drained(stack, m);
        if n <= stack.len() {
            assert(popped(before) =~= stack.subrange(n as int, stack.len() as int));
        } else {
            assert(popped(before) =~= Seq::<T>::empty());
        }
        assert(yielded(stack, n) =~= expected);
    }
}

/// Last in, first out: after a run of pushes, as many pops return the pushed
/// values in reverse order and leave the stack as it was before the pushes.
pub proof fn lemma_lifo<T>(stack: Seq<T>, values: Seq<T>)
    ensures
        yielded(pushed_all(stack, values), values.len()) == values.reverse().map_values(
            |v: T| Some(v),
        ),
        drained(pushed_all(stack, values), values.len()) == stack,
{
    let full = pushed_all(stack, values);
    lemma_pushed_all(stack, values);
    lemma_pops(full, values.len());
    assert(full.subrange(values.len() as int, full.len() as int) =~= stack);
    assert(yielded(full, values.len()) =~= values.reverse().map_values(|v: T| Some(v)));
}

/// Empty on drain: once as many values are popped as the stack held, the
/// stack is empty and stays so: those pops return the values from the top
/// down, and every further pop returns nothing.
pub proof fn lemma_empty_on_drain<T>(stack: Seq<T>, extra: nat)
    ensures
        drained(stack, stack.len() + extra) == Seq::<T>::empty(),
        top(drained(stack, stack.len() + extra)) is None,
        yielded(stack, stack.len() + extra) == stack.map_values(|v: T| Some(v)) + Seq::new(
            extra,
            |j: int| None::<T>,
        ),
{
    lemma_pops(stack, stack.len() + extra);
    assert(stack.subrange(stack.len() as int, stack.len() as int) =~= Seq::<T>::empty());
    assert(yielded(stack, stack.len() + extra) =~= stack.map_values(|v: T| Some(v)) + Seq::new(
        extra,
        |j: int| None::<T>,
    ));
}

/// A stack that holds nothing stays as it is however often it is popped, and
/// every pop returns nothing.
pub proof fn lemma_idempotent_emptiness<T>(n: nat)
    ensures
        drained(Seq::<T>::empty(), n) == Seq::<T>::empty(),
        yielded(Seq::<T>::empty(), n) == Seq::new(n, |j: int| None::<T>),
{
    lemma_pops(Seq::<T>::empty(), n);
    assert(yielded(Seq::<T>::empty(), n) =~= Seq::new(n, |j: int| None::<T>));
}

} // verus!
