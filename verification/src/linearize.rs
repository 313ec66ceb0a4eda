//! Why the protocol is safe and linearizable.
//!
//! [`System::inv`] holds in every state that steps can reach. From it follow
//! that no thread ever dereferences a node that was freed, and that every
//! step of the system is a move of the [`Atomic`] stack: the calls take
//! effect one at a time, each between its start and its return.

use vstd::prelude::*;
use crate::atomic::{Atomic, Call, Label};
use crate::history::{entered, is_history, left, lemma_conservation};
use crate::memory::{lemma_contains_front, lemma_contains_rest, Memory};
use crate::protocol::{Action, PopOp, PushOp, NULL};
use crate::system::{Step, System, Thread};

verus! {

impl<T> Thread<T> {
    /// The call as its caller may think of it, given the memory: a `push` is
    /// in effect once its node is published, a `pop` once it has found the
    /// head null or unlinked a node, whose value is its result.
    pub open spec fn call(self, memory: Memory<T>) -> Call<T> {
        match self {
            Thread::Pushing { push, value } => if push is Done {
                Call::Pushed
            } else {
                Call::Push { value }
            },
            Thread::Popping { pop, got } => match pop {
                PopOp::Empty => Call::Popped { result: None },
                PopOp::Unlinked { node } => Call::Popped { result: memory.cells[node].data },
                PopOp::Retired { node } => Call::Popped { result: memory.cells[node].data },
                PopOp::Taken { node } => Call::Popped { result: got },
                _ => Call::Pop,
            },
        }
    }
}

impl<T> System<T> {
    /// The stack as the callers may think of it.
    pub open spec fn atomic(self) -> Atomic<T> {
        Atomic {
            stack: self.memory.contents(),
            calls: self.threads.map_values(|th: Thread<T>| th.call(self.memory)),
        }
    }

    /// Whether performing `thread`'s pending action now is the instant at
    /// which its call takes effect: a swap that succeeds, or a `pop` reading
    /// a null head.
    pub open spec fn takes_effect(self, thread: nat) -> bool {
        match self.threads[thread] {
            Thread::Pushing { push: PushOp::Linked { node, head }, value } => self.memory.swaps(
                head,
            ),
            Thread::Popping { pop: PopOp::Swapping { head, next }, got } => self.memory.swaps(
                head,
            ),
            Thread::Popping { pop: PopOp::Shielded, got } => self.memory.head == NULL,
            _ => false,
        }
    }

    /// What `step` means to the callers.
    pub open spec fn label(self, step: Step<T>) -> Label<T> {
        match step {
            Step::InvokePush { thread, value } => Label::Invoke {
                thread,
                call: Call::Push { value },
            },
            Step::InvokePop { thread } => Label::Invoke { thread, call: Call::Pop },
            Step::Perform { thread, node, link } => if self.takes_effect(thread) {
                Label::Effect { thread }
            } else {
                Label::Silent
            },
            Step::Return { thread } => Label::Return {
                thread,
                value: self.threads[thread].result(),
            },
            Step::Free { node } => Label::Silent,
        }
    }

    /// Whether `a` is linked into the stack.
    pub open spec fn linked(self, a: usize) -> bool {
        self.memory.chain().contains(a)
    }

    /// What holds of the operation of `thread`.
    ///
    /// A node that a `push` has not yet published exists, is outside the
    /// chain and outside the collaborator's hands, and holds the value being
    /// pushed; once its link is written, the link is the head that was read.
    /// A node that a `pop` looks at exists, and if it is retired it waits for
    /// this thread's shield; the link that was read from it is its link for
    /// as long as it stays in the chain. A node that a `pop` has unlinked
    /// exists, is outside the chain and still holds its value; once retired,
    /// it waits for this thread's shield.
    pub open spec fn thread_ok(self, thread: nat) -> bool {
        let m = self.memory;
        let unpublished = |node: usize, value: T|
            {
                &&& node != NULL
                &&& m.live(node)
                &&& !self.linked(node)
                &&& !self.retired.contains_key(node)
                &&& m.cells[node].data == Some(value)
            };
        let in_sight = |head: usize|
            {
                &&& head != NULL
                &&& m.live(head)
                &&& self.retired.contains_key(head) ==> self.retired[head].contains(thread)
            };
        let unlinked = |node: usize|
            {
                &&& m.live(node)
                &&& !self.linked(node)
                &&& m.cells[node].data is Some
            };
        match self.threads[thread] {
            Thread::Pushing { push, value } => match push {
                PushOp::Ready { node } => unpublished(node, value),
                PushOp::Snapshot { node, head } => unpublished(node, value),
                PushOp::Linked { node, head } => unpublished(node, value) && m.cells[node].next
                    == head,
                _ => true,
            },
            Thread::Popping { pop, got } => match pop {
                PopOp::Probing { head } => got is None && in_sight(head),
                PopOp::Swapping { head, next } => {
                    &&& got is None
                    &&& in_sight(head)
                    &&& self.linked(head) ==> m.cells[head].next == next
                },
                PopOp::Unlinked { node } => {
                    &&& got is None
                    &&& unlinked(node)
                    &&& !self.retired.contains_key(node)
                },
                PopOp::Retired { node } => {
                    &&& got is None
                    &&& unlinked(node)
                    &&& self.retired.contains_key(node)
                    &&& self.retired[node].contains(thread)
                },
                PopOp::Taken { node } => true,
                _ => got is None,
            },
        }
    }

    /// What holds of two operations: the nodes that two threads claim for
    /// themselves differ, and no `pop` looks at a node that a `push` has not
    /// yet published.
    pub open spec fn apart(self, t: nat, u: nat) -> bool {
        let a = self.threads[t];
        let b = self.threads[u];
        &&& t != u && a.claimed() is Some ==> a.claimed() != b.claimed()
        &&& a.watched() is Some ==> a.watched() != b.private()
    }

    /// What holds in every state that steps can reach.
    pub open spec fn inv(self) -> bool {
        &&& self.memory.well_linked()
        &&& !self.memory.live(NULL)
        &&& forall|t: nat| #[trigger]
            self.shields.contains(t) <==> self.threads.contains_key(t)
                && self.threads[t].shielded()
        &&& forall|a: usize| #[trigger]
            self.retired.contains_key(a) ==> self.memory.live(a) && !self.linked(a)
        &&& forall|t: nat| #[trigger] self.threads.contains_key(t) ==> self.thread_ok(t)
        &&& forall|t: nat, u: nat|
            #![trigger self.threads.contains_key(t), self.threads.contains_key(u)]
            self.threads.contains_key(t) && self.threads.contains_key(u) ==> self.apart(t, u)
    }

    /// The invariant holds at the start.
    pub proof fn lemma_init()
        ensures
            Self::init().inv(),
            Self::init().atomic() == Atomic::<T>::init(),
    {
        let s = Self::init();
        let c = Seq::<usize>::empty();
        assert(s.memory.is_chain(c));
        s.memory.lemma_chain_is(c);
        assert(s.memory.values(c) =~= Seq::<T>::empty());
        assert(s.atomic().calls =~= Map::<nat, Call<T>>::empty());
    }

    /// Starting a call keeps the invariant and is the start of that call.
    proof fn lemma_invoke(self, step: Step<T>)
        requires
            self.inv(),
            self.enabled(step),
            step is InvokePush || step is InvokePop,
        ensures
            self.apply(step).inv(),
            self.atomic().next(self.label(step), self.apply(step).atomic()),
    {
        let post = self.apply(step);
        let thread = if step is InvokePush {
            step->InvokePush_thread
        } else {
            step->InvokePop_thread
        };
        assert forall|t: nat| #[trigger] post.threads.contains_key(t) implies post.thread_ok(t) by {
            if t != thread {
                assert(self.threads.contains_key(t));
                assert(self.thread_ok(t));
            }
        }
        assert forall|t: nat, u: nat|
            #![trigger post.threads.contains_key(t), post.threads.contains_key(u)]
            post.threads.contains_key(t) && post.threads.contains_key(u) implies post.apart(
            t,
            u,
        ) by {
            if t != thread && u != thread {
                assert(self.threads.contains_key(t) && self.threads.contains_key(u));
                assert(self.apart(t, u));
            }
        }
        assert(post.atomic().calls =~= self.atomic().calls.insert(
            thread,
            post.threads[thread].call(post.memory),
        ));
    }

    /// A step that leaves memory and the retired nodes alone keeps the
    /// invariant; it is silent, unless it is a `pop` reading a null head,
    /// which is the instant that `pop` takes effect.
    proof fn lemma_quiet(self, step: Step<T>)
        requires
            self.inv(),
            self.enabled(step),
            step is Perform,
            ({
                let th = self.threads[step->Perform_thread];
                ||| th.pending() is Protect
                ||| th.pending() is LoadHead
                ||| th.pending() is LoadNext
                ||| th.pending() matches Action::CasHead { expected, .. } && !self.memory.swaps(
                    expected,
                )
            }),
        ensures
            self.apply(step).inv(),
            self.atomic().next(self.label(step), self.apply(step).atomic()),
    {
        let post = self.apply(step);
        let thread = step->Perform_thread;
        let c = self.memory.chain();
        assert(post.memory == self.memory);
        assert(post.retired == self.retired);
        assert(self.memory.is_chain(c));
        self.memory.lemma_empty_iff_null();
        assert(self.thread_ok(thread));
        if c.len() > 0 {
            assert(self.memory.chained_at(c, 0));
            assert(c.contains(c[0]));
        }
        assert forall|t: nat| #[trigger] post.threads.contains_key(t) implies post.thread_ok(t) by {
            assert(self.threads.contains_key(t));
            assert(self.thread_ok(t));
        }
        assert forall|t: nat, u: nat|
            #![trigger post.threads.contains_key(t), post.threads.contains_key(u)]
            post.threads.contains_key(t) && post.threads.contains_key(u) implies post.apart(
            t,
            u,
        ) by {
            assert(self.threads.contains_key(t) && self.threads.contains_key(u));
            assert(self.apart(t, u));
            assert(self.thread_ok(u));
        }
        assert forall|t: nat| #[trigger]
            post.shields.contains(t) <==> post.threads.contains_key(t)
                && post.threads[t].shielded() by {
            assert(self.shields.contains(t) <==> self.threads.contains_key(t)
                && self.threads[t].shielded());
        }
        if self.takes_effect(thread) {
            assert(post.atomic().calls =~= self.atomic().calls.insert(
                thread,
                Call::Popped { result: None },
            ));
        } else {
            assert(post.atomic().calls =~= self.atomic().calls);
        }
    }

    /// An allocation keeps the invariant and is silent.
    proof fn lemma_allocate(self, step: Step<T>)
        requires
            self.inv(),
            self.enabled(step),
            step is Perform,
            self.threads[step->Perform_thread].pending() is Allocate,
        ensures
            self.apply(step).inv(),
            self.atomic().next(self.label(step), self.apply(step).atomic()),
    {
        let post = self.apply(step);
        let thread = step->Perform_thread;
        let node = step->Perform_node;
        let c = self.memory.chain();
        assert(self.memory.is_chain(c));
        self.memory.lemma_allocate_frame(
            c,
            node,
            self.threads[thread]->value,
            step->Perform_link,
        );
        post.memory.lemma_chain_is(c);
        assert forall|t: nat| #[trigger] post.threads.contains_key(t) implies post.thread_ok(t) by {
            assert(self.threads.contains_key(t));
            assert(self.thread_ok(t));
        }
        assert forall|t: nat, u: nat|
            #![trigger post.threads.contains_key(t), post.threads.contains_key(u)]
            post.threads.contains_key(t) && post.threads.contains_key(u) implies post.apart(
            t,
            u,
        ) by {
            assert(self.threads.contains_key(t) && self.threads.contains_key(u));
            assert(self.apart(t, u));
            assert(self.thread_ok(t));
            assert(self.thread_ok(u));
        }
        assert forall|t: nat| #[trigger]
            post.shields.contains(t) <==> post.threads.contains_key(t)
                && post.threads[t].shielded() by {
            assert(self.shields.contains(t) <==> self.threads.contains_key(t)
                && self.threads[t].shielded());
        }
        assert forall|t: nat| #[trigger] post.threads.contains_key(t) implies post.threads[t].call(
            post.memory,
        ) == self.threads[t].call(self.memory) by {
            assert(self.threads.contains_key(t));
            assert(self.thread_ok(t));
        }
        assert(post.atomic().calls =~= self.atomic().calls);
    }

    /// Writing the link of an unpublished node keeps the invariant and is
    /// silent.
    proof fn lemma_store_next(self, step: Step<T>)
        requires
            self.inv(),
            self.enabled(step),
            step is Perform,
            self.threads[step->Perform_thread].pending() is StoreNext,
        ensures
            self.apply(step).inv(),
            self.atomic().next(self.label(step), self.apply(step).atomic()),
    {
        let post = self.apply(step);
        let thread = step->Perform_thread;
        let c = self.memory.chain();
        let node = self.threads[thread].pending()->StoreNext_node;
        let next = self.threads[thread].pending()->StoreNext_next;
        assert(self.memory.is_chain(c));
        assert(self.thread_ok(thread));
        self.memory.lemma_store_frame(c, node, next);
        post.memory.lemma_chain_is(c);
        assert forall|t: nat| #[trigger] post.threads.contains_key(t) implies post.thread_ok(t) by {
            assert(self.threads.contains_key(t));
            assert(self.thread_ok(t));
            assert(self.apart(t, thread));
            assert(self.apart(thread, t));
        }
        assert forall|t: nat, u: nat|
            #![trigger post.threads.contains_key(t), post.threads.contains_key(u)]
            post.threads.contains_key(t) && post.threads.contains_key(u) implies post.apart(
            t,
            u,
        ) by {
            assert(self.threads.contains_key(t) && self.threads.contains_key(u));
            assert(self.apart(t, u));
        }
        assert forall|t: nat| #[trigger]
            post.shields.contains(t) <==> post.threads.contains_key(t)
                && post.threads[t].shielded() by {
            assert(self.shields.contains(t) <==> self.threads.contains_key(t)
                && self.threads[t].shielded());
        }
        assert forall|t: nat| #[trigger] post.threads.contains_key(t) implies post.threads[t].call(
            post.memory,
        ) == self.threads[t].call(self.memory) by {
            assert(self.threads.contains_key(t));
        }
        assert(post.atomic().calls =~= self.atomic().calls);
    }

    /// A swap that publishes a node keeps the invariant and is the instant
    /// at which the `push` takes effect.
    proof fn lemma_publish(self, step: Step<T>)
        requires
            self.inv(),
            self.enabled(step),
            step is Perform,
            self.threads[step->Perform_thread] matches Thread::Pushing {
                push: PushOp::Linked { node, head },
                value,
            } && self.memory.swaps(head),
        ensures
            self.apply(step).inv(),
            self.atomic().next(self.label(step), self.apply(step).atomic()),
    {
        let post = self.apply(step);
        let thread = step->Perform_thread;
        let c = self.memory.chain();
        let node = self.threads[thread]->push->Linked_node;
        let value = self.threads[thread]->value;
        let d = seq![node] + c;
        assert(self.memory.is_chain(c));
        assert(self.thread_ok(thread));
        self.memory.lemma_link(c, node);
        self.memory.lemma_chain_is(c);
        post.memory.lemma_chain_is(d);
        lemma_contains_front(c, node);
        assert forall|t: nat| #[trigger] post.threads.contains_key(t) implies post.thread_ok(t) by {
            assert(self.threads.contains_key(t));
            assert(self.thread_ok(t));
            assert(self.apart(t, thread));
            assert(self.apart(thread, t));
        }
        assert forall|t: nat, u: nat|
            #![trigger post.threads.contains_key(t), post.threads.contains_key(u)]
            post.threads.contains_key(t) && post.threads.contains_key(u) implies post.apart(
            t,
            u,
        ) by {
            assert(self.threads.contains_key(t) && self.threads.contains_key(u));
            assert(self.apart(t, u));
        }
        assert forall|t: nat| #[trigger]
            post.shields.contains(t) <==> post.threads.contains_key(t)
                && post.threads[t].shielded() by {
            assert(self.shields.contains(t) <==> self.threads.contains_key(t)
                && self.threads[t].shielded());
        }
        assert forall|a: usize| #[trigger] post.retired.contains_key(a) implies post.memory.live(a)
            && !post.linked(a) by {
            assert(self.retired.contains_key(a));
        }
        assert(post.atomic().calls =~= self.atomic().calls.insert(thread, Call::Pushed));
    }

    /// A swap that unlinks the top node keeps the invariant and is the
    /// instant at which the `pop` takes effect.
    proof fn lemma_unlink(self, step: Step<T>)
        requires
            self.inv(),
            self.enabled(step),
            step is Perform,
            self.threads[step->Perform_thread] matches Thread::Popping {
                pop: PopOp::Swapping { head, next },
                got,
            } && self.memory.swaps(head),
        ensures
            self.apply(step).inv(),
            self.atomic().next(self.label(step), self.apply(step).atomic()),
    {
        let post = self.apply(step);
        let thread = step->Perform_thread;
        let c = self.memory.chain();
        let head = self.threads[thread]->pop->Swapping_head;
        assert(self.memory.is_chain(c));
        assert(self.thread_ok(thread));
        self.memory.lemma_empty_iff_null();
        assert(self.memory.chained_at(c, 0));
        assert(c.contains(c[0]));
        self.memory.lemma_unlink(c);
        self.memory.lemma_chain_is(c);
        post.memory.lemma_chain_is(c.drop_first());
        lemma_contains_rest(c);
        assert forall|t: nat| #[trigger] post.threads.contains_key(t) implies post.thread_ok(t) by {
            assert(self.threads.contains_key(t));
            assert(self.thread_ok(t));
        }
        assert forall|t: nat, u: nat|
            #![trigger post.threads.contains_key(t), post.threads.contains_key(u)]
            post.threads.contains_key(t) && post.threads.contains_key(u) implies post.apart(
            t,
            u,
        ) by {
            assert(self.threads.contains_key(t) && self.threads.contains_key(u));
            assert(self.apart(t, u));
            assert(self.thread_ok(t));
            assert(self.thread_ok(u));
        }
        assert forall|t: nat| #[trigger]
            post.shields.contains(t) <==> post.threads.contains_key(t)
                && post.threads[t].shielded() by {
            assert(self.shields.contains(t) <==> self.threads.contains_key(t)
                && self.threads[t].shielded());
        }
        assert forall|a: usize| #[trigger] post.retired.contains_key(a) implies post.memory.live(a)
            && !post.linked(a) by {
            assert(self.retired.contains_key(a));
        }
        assert(post.atomic().calls =~= self.atomic().calls.insert(
            thread,
            Call::Popped { result: Some(self.memory.contents()[0]) },
        ));
    }

    /// Retiring an unlinked node keeps the invariant and is silent.
    proof fn lemma_retire(self, step: Step<T>)
        requires
            self.inv(),
            self.enabled(step),
            step is Perform,
            self.threads[step->Perform_thread].pending() is Retire,
        ensures
            self.apply(step).inv(),
            self.atomic().next(self.label(step), self.apply(step).atomic()),
    {
        let post = self.apply(step);
        let thread = step->Perform_thread;
        assert(self.thread_ok(thread));
        assert(self.shields.contains(thread));
        assert forall|t: nat| #[trigger] post.threads.contains_key(t) implies post.thread_ok(t) by {
            assert(self.threads.contains_key(t));
            assert(self.thread_ok(t));
            assert(self.apart(t, thread));
            assert(self.apart(thread, t));
            assert(self.shields.contains(t) <==> self.threads[t].shielded());
        }
        assert forall|t: nat, u: nat|
            #![trigger post.threads.contains_key(t), post.threads.contains_key(u)]
            post.threads.contains_key(t) && post.threads.contains_key(u) implies post.apart(
            t,
            u,
        ) by {
            assert(self.threads.contains_key(t) && self.threads.contains_key(u));
            assert(self.apart(t, u));
        }
        assert forall|t: nat| #[trigger]
            post.shields.contains(t) <==> post.threads.contains_key(t)
                && post.threads[t].shielded() by {
            assert(self.shields.contains(t) <==> self.threads.contains_key(t)
                && self.threads[t].shielded());
        }
        assert forall|a: usize| #[trigger] post.retired.contains_key(a) implies post.memory.live(a)
            && !post.linked(a) by {
            if a != self.threads[thread].pending()->Retire_node {
                assert(self.retired.contains_key(a));
            }
        }
        assert(post.atomic().calls =~= self.atomic().calls);
    }

    /// Moving the value out of a retired node keeps the invariant and is
    /// silent: the result of the `pop` was settled when it unlinked the node.
    proof fn lemma_take(self, step: Step<T>)
        requires
            self.inv(),
            self.enabled(step),
            step is Perform,
            self.threads[step->Perform_thread].pending() is TakeData,
        ensures
            self.apply(step).inv(),
            self.atomic().next(self.label(step), self.apply(step).atomic()),
    {
        let post = self.apply(step);
        let thread = step->Perform_thread;
        let c = self.memory.chain();
        let node = self.threads[thread].pending()->TakeData_node;
        assert(self.memory.is_chain(c));
        assert(self.thread_ok(thread));
        self.memory.lemma_take_frame(c, node);
        post.memory.lemma_chain_is(c);
        assert forall|t: nat| #[trigger] post.threads.contains_key(t) implies post.thread_ok(t) by {
            assert(self.threads.contains_key(t));
            assert(self.thread_ok(t));
            assert(self.apart(t, thread));
            assert(self.apart(thread, t));
        }
        assert forall|t: nat, u: nat|
            #![trigger post.threads.contains_key(t), post.threads.contains_key(u)]
            post.threads.contains_key(t) && post.threads.contains_key(u) implies post.apart(
            t,
            u,
        ) by {
            assert(self.threads.contains_key(t) && self.threads.contains_key(u));
            assert(self.apart(t, u));
        }
        assert forall|t: nat| #[trigger]
            post.shields.contains(t) <==> post.threads.contains_key(t)
                && post.threads[t].shielded() by {
            assert(self.shields.contains(t) <==> self.threads.contains_key(t)
                && self.threads[t].shielded());
        }
        assert forall|a: usize| #[trigger] post.retired.contains_key(a) implies post.memory.live(a)
            && !post.linked(a) by {
            assert(self.retired.contains_key(a));
        }
        assert forall|t: nat| #[trigger] post.threads.contains_key(t) implies post.threads[t].call(
            post.memory,
        ) == self.threads[t].call(self.memory) by {
            assert(self.threads.contains_key(t));
            assert(self.apart(t, thread));
            assert(self.apart(thread, t));
        }
        assert(post.atomic().calls =~= self.atomic().calls);
    }

    /// Returning keeps the invariant and hands the caller the result that
    /// the call had when it took effect.
    proof fn lemma_return(self, step: Step<T>)
        requires
            self.inv(),
            self.enabled(step),
            step is Return,
        ensures
            self.apply(step).inv(),
            self.atomic().next(self.label(step), self.apply(step).atomic()),
    {
        let post = self.apply(step);
        let thread = step->Return_thread;
        assert(self.thread_ok(thread));
        assert forall|t: nat| #[trigger] post.threads.contains_key(t) implies post.thread_ok(t) by {
            assert(self.threads.contains_key(t));
            assert(self.thread_ok(t));
        }
        assert forall|t: nat, u: nat|
            #![trigger post.threads.contains_key(t), post.threads.contains_key(u)]
            post.threads.contains_key(t) && post.threads.contains_key(u) implies post.apart(
            t,
            u,
        ) by {
            assert(self.threads.contains_key(t) && self.threads.contains_key(u));
            assert(self.apart(t, u));
        }
        assert forall|t: nat| #[trigger]
            post.shields.contains(t) <==> post.threads.contains_key(t)
                && post.threads[t].shielded() by {
            assert(self.shields.contains(t) <==> self.threads.contains_key(t)
                && self.threads[t].shielded());
        }
        assert forall|a: usize| #[trigger] post.retired.contains_key(a) implies post.memory.live(a)
            && !post.linked(a) by {
            assert(self.retired.contains_key(a));
        }
        assert(post.atomic().calls =~= self.atomic().calls.remove(thread));
    }

    /// Freeing a node that waits for no shield keeps the invariant and is
    /// silent: no operation still looks at the node.
    proof fn lemma_free(self, step: Step<T>)
        requires
            self.inv(),
            self.enabled(step),
            step is Free,
        ensures
            self.apply(step).inv(),
            self.atomic().next(self.label(step), self.apply(step).atomic()),
    {
        let post = self.apply(step);
        let node = step->Free_node;
        let c = self.memory.chain();
        assert(self.memory.is_chain(c));
        assert(self.retired.contains_key(node));
        self.memory.lemma_free_one_frame(c, node);
        post.memory.lemma_chain_is(c);
        assert forall|t: nat| #[trigger] post.threads.contains_key(t) implies post.thread_ok(t) by {
            assert(self.threads.contains_key(t));
            assert(self.thread_ok(t));
            assert(!self.retired[node].contains(t));
        }
        assert forall|t: nat, u: nat|
            #![trigger post.threads.contains_key(t), post.threads.contains_key(u)]
            post.threads.contains_key(t) && post.threads.contains_key(u) implies post.apart(
            t,
            u,
        ) by {
            assert(self.threads.contains_key(t) && self.threads.contains_key(u));
            assert(self.apart(t, u));
        }
        assert forall|a: usize| #[trigger] post.retired.contains_key(a) implies post.memory.live(a)
            && !post.linked(a) by {
            assert(self.retired.contains_key(a));
        }
        assert forall|t: nat| #[trigger] post.threads.contains_key(t) implies post.threads[t].call(
            post.memory,
        ) == self.threads[t].call(self.memory) by {
            assert(self.threads.contains_key(t));
            assert(self.thread_ok(t));
            assert(!self.retired[node].contains(t));
        }
        assert(post.atomic().calls =~= self.atomic().calls);
    }

    /// Every step keeps the invariant and is a move of the atomic stack:
    /// silent, or the start, the effect or the return of one call.
    pub proof fn lemma_step(self, step: Step<T>)
        requires
            self.inv(),
            self.enabled(step),
        ensures
            self.apply(step).inv(),
            self.atomic().next(self.label(step), self.apply(step).atomic()),
    {
        match step {
            Step::InvokePush { .. } => self.lemma_invoke(step),
            Step::InvokePop { .. } => self.lemma_invoke(step),
            Step::Return { .. } => self.lemma_return(step),
            Step::Free { .. } => self.lemma_free(step),
            Step::Perform { thread, .. } => {
                let th = self.threads[thread];
                match th.pending() {
                    Action::Allocate => self.lemma_allocate(step),
                    Action::StoreNext { .. } => self.lemma_store_next(step),
                    Action::Retire { .. } => self.lemma_retire(step),
                    Action::TakeData { .. } => self.lemma_take(step),
                    Action::CasHead { expected, .. } => {
                        if self.memory.swaps(expected) {
                            if th is Pushing {
                                self.lemma_publish(step);
                            } else {
                                self.lemma_unlink(step);
                            }
                        } else {
                            self.lemma_quiet(step);
                        }
                    },
                    _ => self.lemma_quiet(step),
                }
            },
        }
    }

    /// No operation is ever about to touch a node that does not exist: the
    /// node whose link it is about to write or read, that it is about to
    /// retire, or whose value it is about to take, has not been freed. A node
    /// about to be retired has not been retired before, and a node about to
    /// be emptied still holds its value.
    pub proof fn lemma_never_dangling(self, thread: nat)
        requires
            self.inv(),
            self.threads.contains_key(thread),
        ensures
            match self.threads[thread].pending() {
                Action::StoreNext { node, next, order } => self.memory.live(node),
                Action::LoadNext { node, order } => self.memory.live(node),
                Action::Retire { node } => self.memory.live(node) && !self.retired.contains_key(
                    node,
                ),
                Action::TakeData { node } => self.memory.live(node)
                    && self.memory.cells[node].data is Some,
                _ => true,
            },
    {
        assert(self.thread_ok(thread));
    }

    /// The head moves only when a call takes effect.
    pub proof fn lemma_head_moves_on_effect(self, step: Step<T>)
        requires
            self.inv(),
            self.enabled(step),
            self.apply(step).memory.head != self.memory.head,
        ensures
            self.label(step) is Effect,
    {
    }

    /// Whether `a` has been unlinked and not yet freed: a `pop` holds it, or
    /// it is retired.
    pub open spec fn unlinked(self, a: usize) -> bool {
        ||| self.retired.contains_key(a)
        ||| exists|t: nat| #[trigger]
            self.threads.contains_key(t) && self.threads[t].holding() == Some(a)
    }

    /// A node that has been unlinked is never linked again: after any step
    /// it is still unlinked, or it has been freed. So a swap that finds the
    /// head it expects finds the very node it read, not a later one that
    /// happens to sit at the same address.
    pub proof fn lemma_never_relinked(self, step: Step<T>, a: usize)
        requires
            self.inv(),
            self.enabled(step),
            self.unlinked(a),
        ensures
            !self.apply(step).linked(a),
            self.apply(step).unlinked(a) || !self.apply(step).memory.live(a),
    {
        let post = self.apply(step);
        self.lemma_step(step);
        if self.retired.contains_key(a) {
            if step is Free && step->Free_node == a {
            } else {
                assert(post.retired.contains_key(a));
            }
        } else {
            let t = choose|t: nat| #[trigger]
                self.threads.contains_key(t) && self.threads[t].holding() == Some(a);
            assert(self.thread_ok(t));
            if step is Perform && step->Perform_thread == t {
                assert(post.retired.contains_key(a));
            } else {
                if step is Return {
                    assert(step->Return_thread != t);
                }
                assert(post.threads.contains_key(t) && post.threads[t].holding() == Some(a));
                assert(post.thread_ok(t));
            }
        }
        if post.linked(a) {
            post.memory.lemma_path_nodes(post.memory.head, post.memory.chain(), a);
            if post.unlinked(a) && !post.retired.contains_key(a) {
                let u = choose|u: nat| #[trigger]
                    post.threads.contains_key(u) && post.threads[u].holding() == Some(a);
                assert(post.thread_ok(u));
            }
        }
    }
}

} // verus!

verus! {

/// Whether `states` is a run of the system from its start whose steps are
/// `steps`.
pub open spec fn is_run<T>(states: Seq<System<T>>, steps: Seq<Step<T>>) -> bool {
    &&& states.len() == steps.len() + 1
    &&& states[0] == System::<T>::init()
    &&& forall|i: int| 0 <= i < steps.len() ==> (#[trigger] states[i]).next(steps[i], states[i + 1])
}

/// The stack as the callers may think of it, state by state.
pub open spec fn seen_states<T>(states: Seq<System<T>>) -> Seq<Atomic<T>> {
    Seq::new(states.len(), |i: int| states[i].atomic())
}

/// What the steps mean to the callers, step by step.
pub open spec fn seen_labels<T>(states: Seq<System<T>>, steps: Seq<Step<T>>) -> Seq<Label<T>> {
    Seq::new(steps.len(), |i: int| states[i].label(steps[i]))
}

/// The invariant holds in every state of every run.
pub proof fn lemma_run_inv<T>(states: Seq<System<T>>, steps: Seq<Step<T>>, n: int)
    requires
        is_run(states, steps),
        0 <= n < states.len(),
    ensures
        states[n].inv(),
    decreases n,
{
    if n == 0 {
        System::<T>::lemma_init();
    } else {
        lemma_run_inv(states, steps, n - 1);
        assert(states[n - 1].next(steps[n - 1], states[n]));
        states[n - 1].lemma_step(steps[n - 1]);
    }
}

/// Linearizability: whatever the threads do and in whatever order their
/// steps fall, the callers see a history of the atomic stack. Every call
/// takes effect at one of its own steps, a swap that succeeds or a read of a
/// null head, and returns what the stack gave it at that instant.
pub proof fn lemma_linearizable<T>(states: Seq<System<T>>, steps: Seq<Step<T>>)
    requires
        is_run(states, steps),
    ensures
        is_history(seen_states(states), seen_labels(states, steps)),
{
    let seen = seen_states(states);
    let labels = seen_labels(states, steps);
    System::<T>::lemma_init();
    assert forall|i: int| 0 <= i < labels.len() implies (#[trigger] seen[i]).next(
        labels[i],
        seen[i + 1],
    ) by {
        lemma_run_inv(states, steps, i);
        assert(states[i].next(steps[i], states[i + 1]));
        states[i].lemma_step(steps[i]);
    }
}

/// Conservation under concurrency: however the steps of the threads fall,
/// the values that pushes have put into the stack are those that pops have
/// taken out together with those the stack holds. As many pops succeed as
/// pushes took effect, less the values that are still there.
pub proof fn lemma_run_conserves<T>(states: Seq<System<T>>, steps: Seq<Step<T>>, n: nat)
    requires
        is_run(states, steps),
        n <= steps.len(),
    ensures
        entered(seen_states(states), seen_labels(states, steps), n) == left(
            seen_states(states),
            seen_labels(states, steps),
            n,
        ).add(states[n as int].memory.contents().to_multiset()),
        entered(seen_states(states), seen_labels(states, steps), n).len() == left(
            seen_states(states),
            seen_labels(states, steps),
            n,
        ).len() + states[n as int].memory.contents().len(),
{
    lemma_linearizable(states, steps);
    lemma_conservation(seen_states(states), seen_labels(states, steps), n);
}

/// Progress: between two states of a run in which the head differs, some
/// call took effect. A swap fails only when the head is no longer the one
/// that was read, so a thread retries only because another call got through.
pub proof fn lemma_retry_means_progress<T>(
    states: Seq<System<T>>,
    steps: Seq<Step<T>>,
    i: int,
    j: int,
)
    requires
        is_run(states, steps),
        0 <= i <= j < states.len(),
        states[i].memory.head != states[j].memory.head,
    ensures
        exists|k: int| i <= k < j && #[trigger] seen_labels(states, steps)[k] is Effect,
    decreases j - i,
{
    if states[j - 1].memory.head != states[j].memory.head {
        lemma_run_inv(states, steps, j - 1);
        assert(states[j - 1].next(steps[j - 1], states[j]));
        states[j - 1].lemma_head_moves_on_effect(steps[j - 1]);
        assert(seen_labels(states, steps)[j - 1] is Effect);
    } else {
        lemma_retry_means_progress(states, steps, i, j - 1);
        let k = choose|k: int| i <= k < j - 1 && #[trigger] seen_labels(states, steps)[k] is Effect;
        assert(seen_labels(states, steps)[k] is Effect);
    }
}

/// Memory safety: in no state of any run is a thread about to touch a node
/// that was freed.
pub proof fn lemma_memory_safe<T>(
    states: Seq<System<T>>,
    steps: Seq<Step<T>>,
    n: int,
    thread: nat,
)
    requires
        is_run(states, steps),
        0 <= n < states.len(),
        states[n].threads.contains_key(thread),
    ensures
        states[n].memory.permits(states[n].threads[thread].pending()),
{
    lemma_run_inv(states, steps, n);
    states[n].lemma_never_dangling(thread);
}

} // verus!
