//! Histories of the atomic stack, and what holds of every one of them.
//!
//! A history is a run of [`Atomic`] moves from the empty stack. The order in
//! which the calls take effect is a total order of the calls; the laws here
//! say that it respects the order in which calls follow one another in time,
//! that every result is the one this order explains, and that no value is
//! lost or made up.

use vstd::prelude::*;
use vstd::multiset::Multiset;
use vstd::seq_lib::{to_multiset_insert, to_multiset_remove};
use crate::atomic::{top, Atomic, Call, Label};

verus! {

impl<T> Label<T> {
    /// The thread whose call the move belongs to.
    pub open spec fn thread(self) -> Option<nat> {
        match self {
            Label::Silent => None,
            Label::Invoke { thread, call } => Some(thread),
            Label::Effect { thread } => Some(thread),
            Label::Return { thread, value } => Some(thread),
        }
    }
}

/// Whether `states` is a run from the empty stack whose moves are `labels`.
pub open spec fn is_history<T>(states: Seq<Atomic<T>>, labels: Seq<Label<T>>) -> bool {
    &&& states.len() == labels.len() + 1
    &&& states[0] == Atomic::<T>::init()
    &&& forall|i: int| 0 <= i < labels.len() ==> (#[trigger] states[i]).next(labels[i], states[i + 1])
}

/// The values that pushes have put into the stack during the first `n` moves.
pub open spec fn entered<T>(states: Seq<Atomic<T>>, labels: Seq<Label<T>>, n: nat) -> Multiset<T>
    decreases n,
{
    if n == 0 {
        Multiset::empty()
    } else {
        let i = n - 1;
        let before = entered(states, labels, i as nat);
        match labels[i] {
            Label::Effect { thread } => match states[i].calls[thread] {
                Call::Push { value } => before.insert(value),
                _ => before,
            },
            _ => before,
        }
    }
}

/// The values that pops have taken out of the stack during the first `n`
/// moves.
pub open spec fn left<T>(states: Seq<Atomic<T>>, labels: Seq<Label<T>>, n: nat) -> Multiset<T>
    decreases n,
{
    if n == 0 {
        Multiset::empty()
    } else {
        let i = n - 1;
        let before = left(states, labels, i as nat);
        match labels[i] {
            Label::Effect { thread } => match (states[i].calls[thread], top(states[i].stack)) {
                (Call::Pop, Some(value)) => before.insert(value),
                _ => before,
            },
            _ => before,
        }
    }
}

/// The last of the first `n` moves that belongs to `thread`, or -1 if none
/// does.
pub open spec fn last_move<T>(labels: Seq<Label<T>>, thread: nat, n: nat) -> int
    decreases n,
{
    if n == 0 {
        -1
    } else if labels[n - 1].thread() == Some(thread) {
        n - 1
    } else {
        last_move(labels, thread, (n - 1) as nat)
    }
}

/// `last_move` names a move of the thread among the first `n`, and the
/// thread makes no move after it and before move `n`.
pub proof fn lemma_last_move<T>(labels: Seq<Label<T>>, thread: nat, n: nat)
    requires
        n <= labels.len(),
    ensures
        -1 <= last_move(labels, thread, n) < n,
        last_move(labels, thread, n) >= 0 ==> labels[last_move(labels, thread, n)].thread() == Some(
            thread,
        ),
        forall|k: int|
            last_move(labels, thread, n) < k < n ==> (#[trigger] labels[k]).thread() != Some(
                thread,
            ),
    decreases n,
{
    if n > 0 && labels[n - 1].thread() != Some(thread) {
        lemma_last_move(labels, thread, (n - 1) as nat);
    }
}

/// What the call `call` becomes when it takes effect on `stack`.
pub open spec fn outcome<T>(call: Call<T>, stack: Seq<T>) -> Call<T> {
    match call {
        Call::Push { value } => Call::Pushed,
        _ => Call::Popped { result: top(stack) },
    }
}

/// Where the call of `thread` stands after `n` moves, read off the moves
/// alone: the thread has no call if it never moved or returned last; its
/// call is as it was started if the thread started it last; and if the call
/// took effect last, the thread had started it before, and the call is what
/// that start became on the stack of that instant.
pub open spec fn call_matches_moves<T>(
    states: Seq<Atomic<T>>,
    labels: Seq<Label<T>>,
    thread: nat,
    n: nat,
) -> bool {
    let calls = states[n as int].calls;
    let j = last_move(labels, thread, n);
    if j < 0 {
        !calls.contains_key(thread)
    } else {
        match labels[j] {
            Label::Return { thread: t, value } => !calls.contains_key(thread),
            Label::Invoke { thread: t, call } => {
                &&& calls.contains_key(thread)
                &&& calls[thread] == call
                &&& call is Push || call is Pop
            },
            Label::Effect { thread: t } => {
                let h = last_move(labels, thread, j as nat);
                &&& calls.contains_key(thread)
                &&& h >= 0
                &&& labels[h] is Invoke
                &&& calls[thread] == outcome(labels[h]->call, states[j].stack)
            },
            Label::Silent => false,
        }
    }
}

/// In every history the call of every thread stands where its moves say.
pub proof fn lemma_call_matches_moves<T>(
    states: Seq<Atomic<T>>,
    labels: Seq<Label<T>>,
    thread: nat,
    n: nat,
)
    requires
        is_history(states, labels),
        n <= labels.len(),
    ensures
        call_matches_moves(states, labels, thread, n),
    decreases n,
{
    if n > 0 {
        let i = (n - 1) as nat;
        lemma_call_matches_moves(states, labels, thread, i);
        lemma_last_move(labels, thread, i);
        assert(states[i as int].next(labels[i as int], states[i as int + 1]));
    }
}

/// Every call takes effect once, between its start and its return, and
/// returns the result it had at that instant: before a thread returns, its
/// last move was the effect of its call; before that, its last move was the
/// start of the call; a `push` returns nothing, and a `pop` returns the top
/// of the stack as it was when the `pop` took effect.
pub proof fn lemma_effect_within_call<T>(states: Seq<Atomic<T>>, labels: Seq<Label<T>>, i: int)
    requires
        is_history(states, labels),
        0 <= i < labels.len(),
        labels[i] is Return,
    ensures
        ({
            let thread = labels[i]->Return_thread;
            let j = last_move(labels, thread, i as nat);
            let h = last_move(labels, thread, j as nat);
            &&& 0 <= h < j < i
            &&& labels[h] is Invoke
            &&& labels[h]->Invoke_thread == thread
            &&& labels[j] == Label::<T>::Effect { thread }
            &&& forall|k: int| h < k < i && k != j ==> (#[trigger] labels[k]).thread() != Some(thread)
            &&& labels[i]->Return_value == match labels[h]->call {
                Call::Push { value } => None,
                _ => top(states[j].stack),
            }
        }),
{
    let thread = labels[i]->Return_thread;
    let j = last_move(labels, thread, i as nat);
    lemma_call_matches_moves(states, labels, thread, i as nat);
    lemma_last_move(labels, thread, i as nat);
    assert(states[i].next(labels[i], states[i + 1]));
    lemma_last_move(labels, thread, j as nat);
}

/// No value is lost or made up: after any number of moves, the values that
/// entered the stack are those that left it together with those it holds.
pub proof fn lemma_conservation<T>(states: Seq<Atomic<T>>, labels: Seq<Label<T>>, n: nat)
    requires
        is_history(states, labels),
        n <= labels.len(),
    ensures
        entered(states, labels, n) == left(states, labels, n).add(
            states[n as int].stack.to_multiset(),
        ),
        entered(states, labels, n).len() == left(states, labels, n).len() + states[n as int].stack.len(),
    decreases n,
{
    broadcast use vstd::multiset::group_multiset_axioms;

    let stack = states[n as int].stack;
    if n == 0 {
        assert(stack.to_multiset() =~= Multiset::<T>::empty()) by {
            stack.to_multiset_ensures();
            assert(stack.to_multiset().len() == 0);
        }
        assert(entered(states, labels, n) =~= left(states, labels, n).add(stack.to_multiset()));
    } else {
        let i = (n - 1) as nat;
        let before = states[i as int].stack;
        lemma_conservation(states, labels, i);
        assert(states[i as int].next(labels[i as int], states[i as int + 1]));
        match labels[i as int] {
            Label::Effect { thread } => {
                match states[i as int].calls[thread] {
                    Call::Push { value } => {
                        assert(stack =~= before.insert(0, value));
                        to_multiset_insert(before, 0, value);
                    },
                    _ => {
                        if before.len() > 0 {
                            assert(stack =~= before.remove(0));
                            to_multiset_remove(before, 0);
                            before.to_multiset_ensures();
                            assert(before.contains(before[0]));
                        }
                    },
                }
            },
            _ => {},
        }
        assert(entered(states, labels, n) =~= left(states, labels, n).add(stack.to_multiset()));
    }
    stack.to_multiset_ensures();
}

/// When a `pop` finds the stack empty, every value that was pushed before
/// has been popped, each once: as many pops have succeeded as pushes have
/// taken effect.
pub proof fn lemma_empty_means_all_popped<T>(
    states: Seq<Atomic<T>>,
    labels: Seq<Label<T>>,
    i: int,
)
    requires
        is_history(states, labels),
        0 <= i < labels.len(),
        labels[i] is Effect,
        states[i].calls[labels[i]->Effect_thread] is Pop,
        top(states[i].stack) is None,
    ensures
        left(states, labels, i as nat) == entered(states, labels, i as nat),
        left(states, labels, i as nat).len() == entered(states, labels, i as nat).len(),
{
    broadcast use vstd::multiset::group_multiset_axioms;

    lemma_conservation(states, labels, i as nat);
    let stack = states[i].stack;
    stack.to_multiset_ensures();
    assert(stack.to_multiset() =~= Multiset::<T>::empty());
    assert(left(states, labels, i as nat).add(Multiset::<T>::empty()) =~= left(
        states,
        labels,
        i as nat,
    ));
}

} // verus!
