//! Why the stack is lock-free.
//!
//! A thread retries only when a swap fails, and a swap fails only when the
//! head has moved since it was read, which takes another call to take
//! effect. [`System::steps_left`] bounds the steps a thread still has to
//! take if no other call gets through; it goes down with every step of the
//! thread and is raised by nothing but another call taking effect. So
//! whenever some thread keeps taking steps, calls keep taking effect.

use vstd::prelude::*;
use crate::linearize::{is_run, lemma_run_inv, seen_labels};
use crate::protocol::{PopOp, PushOp};
use crate::system::{Step, System, Thread};

verus! {

impl<T> Step<T> {
    /// The thread that takes the step, if a thread does.
    pub open spec fn thread(self) -> Option<nat> {
        match self {
            Step::InvokePush { thread, value } => Some(thread),
            Step::InvokePop { thread } => Some(thread),
            Step::Perform { thread, node, link } => Some(thread),
            Step::Return { thread } => Some(thread),
            Step::Free { node } => None,
        }
    }
}

impl<T> System<T> {
    /// How many steps `thread` takes at most until it has returned, if no
    /// other call takes effect in between; 0 if it is in no call. A thread
    /// that holds a head that has moved since has to find that out first: it
    /// goes on to its swap, fails, and reads the head again.
    pub open spec fn steps_left(self, thread: nat) -> nat {
        if !self.threads.contains_key(thread) {
            0
        } else {
            match self.threads[thread] {
                Thread::Pushing { push, value } => match push {
                    PushOp::Init => 8,
                    PushOp::Shielded => 7,
                    PushOp::Ready { node } => 4,
                    PushOp::Snapshot { node, head } => if self.memory.swaps(head) {
                        3
                    } else {
                        6
                    },
                    PushOp::Linked { node, head } => if self.memory.swaps(head) {
                        2
                    } else {
                        5
                    },
                    PushOp::Done { node } => 1,
                },
                Thread::Popping { pop, got } => match pop {
                    PopOp::Init => 10,
                    PopOp::Shielded => 7,
                    PopOp::Probing { head } => if self.memory.swaps(head) {
                        6
                    } else {
                        9
                    },
                    PopOp::Swapping { head, next } => if self.memory.swaps(head) {
                        5
                    } else {
                        8
                    },
                    PopOp::Unlinked { node } => 4,
                    PopOp::Retired { node } => 3,
                    PopOp::Taken { node } => 2,
                    PopOp::Empty => 1,
                },
            }
        }
    }

    /// Every step that a thread takes inside a call brings it nearer to its
    /// return.
    pub proof fn lemma_own_step_counts_down(self, step: Step<T>)
        requires
            self.inv(),
            self.enabled(step),
            step is Perform || step is Return,
        ensures
            self.apply(step).steps_left(step.thread()->0) < self.steps_left(step.thread()->0),
    {
    }

    /// A step of another thread, or of the collaborator, at which no call
    /// takes effect leaves a thread as near to its return as it was.
    pub proof fn lemma_other_step_keeps_count(self, step: Step<T>, thread: nat)
        requires
            self.inv(),
            self.enabled(step),
            step.thread() != Some(thread),
            !(self.label(step) is Effect),
        ensures
            self.apply(step).steps_left(thread) == self.steps_left(thread),
    {
        if self.apply(step).memory.head != self.memory.head {
            self.lemma_head_moves_on_effect(step);
        }
    }
}

/// How many of the steps from `i` up to `j` the thread takes inside its
/// call.
pub open spec fn own_steps<T>(steps: Seq<Step<T>>, thread: nat, i: int, j: int) -> nat
    decreases j - i,
{
    if j <= i {
        0
    } else {
        let before = own_steps(steps, thread, i, j - 1);
        if steps[j - 1].thread() == Some(thread) && (steps[j - 1] is Perform || steps[j - 1]
            is Return) {
            before + 1
        } else {
            before
        }
    }
}

/// Lock-freedom: in a stretch of a run in which no call takes effect and
/// `thread` starts no call, the thread takes at most ten steps, and fewer
/// the further its call has come. So a thread cannot take step after step
/// without some call, its own or another's, getting through.
pub proof fn lemma_lock_free<T>(
    states: Seq<System<T>>,
    steps: Seq<Step<T>>,
    thread: nat,
    i: int,
    j: int,
)
    requires
        is_run(states, steps),
        0 <= i <= j < states.len(),
        forall|k: int| i <= k < j ==> !(#[trigger] seen_labels(states, steps)[k] is Effect),
        forall|k: int|
            i <= k < j ==> !((#[trigger] steps[k]).thread() == Some(thread) && (steps[k]
                is InvokePush || steps[k] is InvokePop)),
    ensures
        own_steps(steps, thread, i, j) + states[j].steps_left(thread) <= states[i].steps_left(
            thread,
        ),
        states[i].steps_left(thread) <= 10,
    decreases j - i,
{
    if i < j {
        lemma_lock_free(states, steps, thread, i, j - 1);
        lemma_run_inv(states, steps, j - 1);
        let s = states[j - 1];
        let step = steps[j - 1];
        assert(s.next(step, states[j]));
        assert(!(seen_labels(states, steps)[j - 1] is Effect));
        if step.thread() == Some(thread) {
            assert(step is Perform || step is Return);
            s.lemma_own_step_counts_down(step);
        } else {
            s.lemma_other_step_keeps_count(step, thread);
        }
    }
}

} // verus!
