//! Many threads on one memory.
//!
//! A [`System`] is the shared memory, the reclamation collaborator's
//! bookkeeping and the operations that are under way, each owned by a
//! thread. A [`Step`] is one indivisible move: a thread starts an operation,
//! performs the action its operation is waiting for, or returns; or the
//! collaborator frees a retired node. Steps of different threads may follow
//! one another in any order.
//!
//! The collaborator is described by what it promises: a retired node is
//! freed only when every shield that was held at the moment of retirement has
//! been released.

use vstd::prelude::*;
use crate::arena::Heap;
use crate::memory::Memory;
use crate::protocol::{Action, Event, PopOp, PushOp, NULL};

verus! {

/// An operation under way.
pub enum Thread<T> {
    /// A `push` of `value`.
    Pushing { push: PushOp, value: T },
    /// A `pop`; `got` is the value it has taken out of its node, if it has.
    Popping { pop: PopOp, got: Option<T> },
}

impl<T> Thread<T> {
    /// The action the operation is waiting for.
    pub open spec fn pending(self) -> Action {
        match self {
            Thread::Pushing { push, value } => push.pending(),
            Thread::Popping { pop, got } => pop.pending(),
        }
    }

    /// Whether the operation holds its shield: it has performed `Protect`.
    pub open spec fn shielded(self) -> bool {
        match self {
            Thread::Pushing { push, value } => !(push is Init),
            Thread::Popping { pop, got } => !(pop is Init),
        }
    }

    /// What the thread has in hand: a `push` that has not yet allocated its
    /// node holds the value, a `pop` holds the value it took.
    pub open spec fn hand(self) -> Option<T> {
        match self {
            Thread::Pushing { push, value } => if push is Init || push is Shielded {
                Some(value)
            } else {
                None
            },
            Thread::Popping { pop, got } => got,
        }
    }

    /// The operation once `event` is reported, with `hand` left in the
    /// thread's hand.
    pub open spec fn after(self, event: Event, hand: Option<T>) -> Thread<T> {
        match self {
            Thread::Pushing { push, value } => Thread::Pushing { push: push.after(event), value },
            Thread::Popping { pop, got } => Thread::Popping { pop: pop.after(event), got: hand },
        }
    }

    /// The node a `push` has allocated and not yet published.
    pub open spec fn private(self) -> Option<usize> {
        match self {
            Thread::Pushing { push: PushOp::Ready { node }, value } => Some(node),
            Thread::Pushing { push: PushOp::Snapshot { node, head }, value } => Some(node),
            Thread::Pushing { push: PushOp::Linked { node, head }, value } => Some(node),
            _ => None,
        }
    }

    /// The node a `pop` has unlinked and whose value it has not yet taken.
    pub open spec fn holding(self) -> Option<usize> {
        match self {
            Thread::Popping { pop: PopOp::Unlinked { node }, got } => Some(node),
            Thread::Popping { pop: PopOp::Retired { node }, got } => Some(node),
            _ => None,
        }
    }

    /// The node that belongs to this operation alone.
    pub open spec fn claimed(self) -> Option<usize> {
        if self is Pushing {
            self.private()
        } else {
            self.holding()
        }
    }

    /// The node a `pop` has read from the head and may still dereference.
    pub open spec fn watched(self) -> Option<usize> {
        match self {
            Thread::Popping { pop: PopOp::Probing { head }, got } => Some(head),
            Thread::Popping { pop: PopOp::Swapping { head, next }, got } => Some(head),
            _ => None,
        }
    }

    /// What the operation hands to its caller when it returns.
    pub open spec fn result(self) -> Option<T> {
        match self {
            Thread::Pushing { push, value } => None,
            Thread::Popping { pop, got } => got,
        }
    }
}

/// The memory, the collaborator's bookkeeping and the operations under way.
pub struct System<T> {
    pub memory: Memory<T>,
    /// The threads that hold a shield.
    pub shields: Set<nat>,
    /// The retired nodes, each with the shields it still waits for.
    pub retired: Map<usize, Set<nat>>,
    /// The operation of each thread that is inside a call.
    pub threads: Map<nat, Thread<T>>,
}

/// One indivisible move of the system.
pub enum Step<T> {
    /// `thread` calls `push(value)`.
    InvokePush { thread: nat, value: T },
    /// `thread` calls `pop()`.
    InvokePop { thread: nat },
    /// `thread` performs the action its operation is waiting for. On an
    /// allocation the new node appears at `node`, with `link` in its link
    /// field; otherwise the two are ignored.
    Perform { thread: nat, node: usize, link: usize },
    /// `thread` performs `Finish`: it releases its shield and returns.
    Return { thread: nat },
    /// The collaborator frees the retired `node`.
    Free { node: usize },
}

impl<T> System<T> {
    /// Empty memory, nothing under way.
    pub open spec fn init() -> System<T> {
        System {
            memory: Memory::empty(),
            shields: Set::empty(),
            retired: Map::empty(),
            threads: Map::empty(),
        }
    }

    /// Whether `step` can be taken. A thread starts an operation only while
    /// it has none; an allocation lands at an address that is not null and
    /// not in use; the memory has to permit the action, and a node is retired
    /// at most once; the collaborator frees a node only once it waits for no
    /// shield.
    pub open spec fn enabled(self, step: Step<T>) -> bool {
        match step {
            Step::InvokePush { thread, value } => !self.threads.contains_key(thread),
            Step::InvokePop { thread } => !self.threads.contains_key(thread),
            Step::Perform { thread, node, link } => {
                let action = self.threads[thread].pending();
                &&& self.threads.contains_key(thread)
                &&& !(action is Finish)
                &&& self.memory.permits(action)
                &&& action is Allocate ==> node != NULL && !self.memory.live(node)
                &&& action is Retire ==> !self.retired.contains_key(action->Retire_node)
            },
            Step::Return { thread } => self.threads.contains_key(thread)
                && self.threads[thread].pending() is Finish,
            Step::Free { node } => self.retired.contains_key(node) && self.retired[node]
                =~= Set::<nat>::empty(),
        }
    }

    /// The system after `step`. Performing an action changes the memory as
    /// the action says; `Protect` adds the thread to the shields, and
    /// `Retire` notes the node with the shields held at that moment. A
    /// return releases the thread's shield, for which no node waits any
    /// longer.
    pub open spec fn apply(self, step: Step<T>) -> System<T> {
        match step {
            Step::InvokePush { thread, value } => System {
                threads: self.threads.insert(thread, Thread::Pushing { push: PushOp::Init, value }),
                ..self
            },
            Step::InvokePop { thread } => System {
                threads: self.threads.insert(
                    thread,
                    Thread::Popping { pop: PopOp::Init, got: None },
                ),
                ..self
            },
            Step::Perform { thread, node, link } => {
                let th = self.threads[thread];
                let action = th.pending();
                let event = self.memory.report(action, node);
                System {
                    memory: self.memory.after(action, th.hand(), node, link),
                    shields: if action is Protect {
                        self.shields.insert(thread)
                    } else {
                        self.shields
                    },
                    retired: if action is Retire {
                        self.retired.insert(action->Retire_node, self.shields)
                    } else {
                        self.retired
                    },
                    threads: self.threads.insert(
                        thread,
                        th.after(event, self.memory.hands(action, th.hand())),
                    ),
                }
            },
            Step::Return { thread } => System {
                shields: self.shields.remove(thread),
                retired: self.retired.map_values(|waits: Set<nat>| waits.remove(thread)),
                threads: self.threads.remove(thread),
                ..self
            },
            Step::Free { node } => System {
                memory: self.memory.free(node),
                retired: self.retired.remove(node),
                ..self
            },
        }
    }

    /// Whether `step` leads from `self` to `post`.
    pub open spec fn next(self, step: Step<T>, post: System<T>) -> bool {
        self.enabled(step) && post == self.apply(step)
    }

    /// An arena is a memory of the system: where an arena with the same
    /// memory and the same retired nodes performs the pending action of
    /// `thread`, the system can take that step, and the step leaves the
    /// memory, reports the event and fills the thread's hand as the arena
    /// does.
    pub proof fn lemma_arena_step(
        self,
        heap: Heap<T>,
        thread: nat,
        post: Heap<T>,
        event: Event,
        rest: Option<T>,
    )
        requires
            self.threads.contains_key(thread),
            !(self.threads[thread].pending() is Finish),
            heap.memory == self.memory,
            heap.retired == self.retired.dom(),
            heap.permits(self.threads[thread].pending(), self.threads[thread].hand()),
            heap.performs(
                self.threads[thread].pending(),
                self.threads[thread].hand(),
                post,
                event,
                rest,
            ),
        ensures
            ({
                let step = Step::<T>::Perform {
                    thread,
                    node: if event is Allocated {
                        event->Allocated_node
                    } else {
                        NULL
                    },
                    link: NULL,
                };
                &&& self.enabled(step)
                &&& self.apply(step).memory == post.memory
                &&& self.apply(step).retired.dom() == post.retired
                &&& self.apply(step).threads[thread] == self.threads[thread].after(event, rest)
            }),
    {
        let step = Step::<T>::Perform {
            thread,
            node: if event is Allocated {
                event->Allocated_node
            } else {
                NULL
            },
            link: NULL,
        };
        assert(self.apply(step).retired.dom() =~= post.retired);
    }
}

} // verus!
