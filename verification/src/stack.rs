//! A stack with one owner.
//!
//! [`Stack`] keeps its nodes in an [`Arena`] and runs every `push` and `pop`
//! through the protocol machines, one action at a time, exactly as a shared
//! stack would. With a single owner no swap can fail, so each operation ends
//! after one pass.

use vstd::prelude::*;
use crate::arena::{Arena, Heap};
use crate::atomic::{popped, pushed, top};
use crate::memory::{lemma_contains_front, lemma_contains_rest};
use crate::protocol::{Event, PopOp, PushOp, NULL};

verus! {

/// A last-in-first-out stack. Its view lists the values it holds, top first.
pub struct Stack<T> {
    arena: Arena<T>,
}

impl<T> View for Stack<T> {
    type V = Seq<T>;

    closed spec fn view(&self) -> Seq<T> {
        self.arena@.memory.contents()
    }
}

/// Whether every node of `heap` is one of `chain`, or is `spare`.
pub open spec fn no_garbage<T>(heap: Heap<T>, chain: Seq<usize>, spare: usize) -> bool {
    forall|a: usize| #[trigger] heap.memory.live(a) ==> chain.contains(a) || a == spare
}

/// How many actions a `push` in state `op` still has to perform.
pub open spec fn push_rank(op: PushOp) -> nat {
    match op {
        PushOp::Init => 6,
        PushOp::Shielded => 5,
        PushOp::Ready { node } => 4,
        PushOp::Snapshot { node, head } => 3,
        PushOp::Linked { node, head } => 2,
        PushOp::Done { node } => 1,
    }
}

/// How many actions a `pop` in state `op` has to perform at most.
pub open spec fn pop_rank(op: PopOp) -> nat {
    match op {
        PopOp::Init => 8,
        PopOp::Shielded => 7,
        PopOp::Probing { head } => 6,
        PopOp::Swapping { head, next } => 5,
        PopOp::Unlinked { node } => 4,
        PopOp::Retired { node } => 3,
        PopOp::Taken { node } => 2,
        PopOp::Empty => 1,
    }
}

/// What holds of the heap while its owner pushes `value` onto a stack whose
/// chain was `chain` and whose contents were `below`: the chain is untouched
/// until the node is published, and the node is ready for the action that
/// `op` is waiting for.
pub open spec fn pushing<T>(
    heap: Heap<T>,
    op: PushOp,
    hand: Option<T>,
    chain: Seq<usize>,
    below: Seq<T>,
    value: T,
) -> bool {
    let m = heap.memory;
    let unpublished = |node: usize|
        {
            &&& hand is None
            &&& node != NULL
            &&& m.live(node)
            &&& !chain.contains(node)
            &&& m.cells[node].data == Some(value)
            &&& m.is_chain(chain)
            &&& m.values(chain) == below
            &&& no_garbage(heap, chain, node)
        };
    let untouched = hand == Some(value) && m.is_chain(chain) && m.values(chain) == below
        && no_garbage(heap, chain, NULL);
    &&& heap.retired == Set::<usize>::empty()
    &&& !m.live(NULL)
    &&& heap.shields == if op is Init {
        0nat
    } else {
        1nat
    }
    &&& match op {
        PushOp::Init => untouched,
        PushOp::Shielded => untouched,
        PushOp::Ready { node } => unpublished(node),
        PushOp::Snapshot { node, head } => unpublished(node) && head == m.head,
        PushOp::Linked { node, head } => unpublished(node) && head == m.head && m.cells[node].next
            == head,
        PushOp::Done { node } => {
            &&& hand is None
            &&& m.is_chain(seq![node] + chain)
            &&& m.values(seq![node] + chain) == pushed(below, value)
            &&& no_garbage(heap, seq![node] + chain, NULL)
        },
    }
}

/// What holds of the heap while its owner pops from a stack whose chain was
/// `chain` and whose contents were `held`.
pub open spec fn popping<T>(
    heap: Heap<T>,
    op: PopOp,
    hand: Option<T>,
    chain: Seq<usize>,
    held: Seq<T>,
) -> bool {
    let m = heap.memory;
    let rest = chain.drop_first();
    let untouched = hand is None && heap.retired == Set::<usize>::empty() && m.is_chain(chain)
        && m.values(chain) == held;
    let unlinked = |node: usize|
        {
            &&& chain.len() > 0
            &&& node == chain[0]
            &&& m.live(node)
            &&& !rest.contains(node)
            &&& m.is_chain(rest)
            &&& m.values(rest) == held.drop_first()
        };
    &&& !m.live(NULL)
    &&& chain.len() == held.len()
    &&& no_garbage(heap, chain, NULL)
    &&& heap.shields == if op is Init {
        0nat
    } else {
        1nat
    }
    &&& match op {
        PopOp::Init => untouched,
        PopOp::Shielded => untouched,
        PopOp::Empty => untouched && chain.len() == 0,
        PopOp::Probing { head } => untouched && chain.len() > 0 && head == chain[0],
        PopOp::Swapping { head, next } => untouched && chain.len() > 0 && head == chain[0] && next
            == m.cells[head].next,
        PopOp::Unlinked { node } => {
            &&& unlinked(node)
            &&& hand is None
            &&& heap.retired == Set::<usize>::empty()
            &&& m.cells[node].data == Some(held[0])
        },
        PopOp::Retired { node } => {
            &&& unlinked(node)
            &&& hand is None
            &&& heap.retired == set![node]
            &&& m.cells[node].data == Some(held[0])
        },
        PopOp::Taken { node } => {
            &&& unlinked(node)
            &&& hand == Some(held[0])
            &&& heap.retired == set![node]
        },
    }
}

impl<T> Stack<T> {
    /// The heap the stack keeps its nodes in.
    pub closed spec fn heap(&self) -> Heap<T> {
        self.arena@
    }

    /// The arena is sound, its links form a chain that holds every node, and
    /// no operation is under way: no shield is held and no node waits to be
    /// freed.
    pub closed spec fn wf(&self) -> bool {
        &&& self.arena.wf()
        &&& self.arena@.memory.well_linked()
        &&& no_garbage(self.arena@, self.arena@.memory.chain(), NULL)
        &&& self.arena@.shields == 0
        &&& self.arena@.retired == Set::<usize>::empty()
    }

    /// A stack at rest keeps one node for each value and nothing else: the
    /// nodes of its heap are those of the chain, their values are the
    /// contents, no shield is held and no node is retired.
    pub proof fn lemma_at_rest(&self)
        requires
            self.wf(),
        ensures
            self.heap().memory.well_linked(),
            self@ == self.heap().memory.contents(),
            forall|a: usize| #[trigger]
                self.heap().memory.live(a) <==> self.heap().memory.chain().contains(a),
            self.heap().shields == 0,
            self.heap().retired == Set::<usize>::empty(),
    {
        let m = self.heap().memory;
        let c = m.chain();
        self.arena.lemma_wf();
        assert forall|a: usize| c.contains(a) implies #[trigger] m.live(a) by {
            m.lemma_path_nodes(m.head, c, a);
        }
    }

    /// An empty stack.
    pub fn new() -> (stack: Stack<T>)
        ensures
            stack.wf(),
            stack@ == Seq::<T>::empty(),
            stack.heap() == Heap::<T>::empty(),
    {
        let stack = Stack { arena: Arena::new() };
        proof {
            let m = stack.arena@.memory;
            let c = Seq::<usize>::empty();
            assert(m.is_chain(c));
            m.lemma_chain_is(c);
            assert(m.values(c) =~= Seq::<T>::empty());
        }
        stack
    }

    /// Puts `value` on top.
    ///
    /// The operation asks for one action after another until it has
    /// released its shield. The arena refuses none of them, and since
    /// nobody else moves the head, the swap succeeds at the first attempt.
    pub fn push(&mut self, value: T)
        requires
            old(self).wf(),
        ensures
            final(self).wf(),
            final(self)@ == pushed(old(self)@, value),
    {
        let ghost chain = self.arena@.memory.chain();
        let ghost below = self@;
        let mut op = PushOp::begin();
        let mut hand: Option<T> = Some(value);
        proof {
            self.arena.lemma_wf();
        }
        loop
            invariant_except_break
                self.arena.wf(),
                pushing(self.arena@, op, hand, chain, below, value),
            ensures
                self.wf(),
                self@ == pushed(below, value),
            decreases push_rank(op),
        {
            let ghost before = self.arena@;
            let action = op.action();
            proof {
                if op is Linked {
                    before.memory.lemma_link(chain, op->Linked_node);
                    lemma_contains_front(chain, op->Linked_node);
                }
                if op is Snapshot {
                    before.memory.lemma_store_frame(chain, op->Snapshot_node, op->Snapshot_head);
                }
            }
            let event = self.arena.perform(action, &mut hand);
            match event {
                Some(Event::Released) => {
                    proof {
                        let m = self.arena@.memory;
                        assert(before.memory.cells.remove_keys(before.retired)
                            =~= before.memory.cells);
                        m.lemma_chain_is(seq![op->Done_node] + chain);
                    }
                    break ;
                },
                Some(e) => {
                    proof {
                        if op is Shielded {
                            before.memory.lemma_allocate_frame(
                                chain,
                                e->Allocated_node,
                                value,
                                NULL,
                            );
                        }
                        assert forall|a: usize| #[trigger]
                            self.arena@.memory.live(a) implies before.memory.live(a) || (op
                            is Shielded && a == e->Allocated_node) by {}
                    }
                    op = op.step(e);
                },
                None => {
                    break ;
                },
            }
        }
    }

    /// Takes the top value off, or reports that there is none. An empty
    /// stack is left exactly as it was.
    ///
    /// As in `push`, the arena refuses no action and no swap fails. The node
    /// that held the value is retired and, the shield being the only one, is
    /// freed when the operation releases it.
    pub fn pop(&mut self) -> (value: Option<T>)
        requires
            old(self).wf(),
        ensures
            final(self).wf(),
            value == top(old(self)@),
            final(self)@ == popped(old(self)@),
            value is None ==> final(self).heap() == old(self).heap(),
    {
        let ghost chain = self.arena@.memory.chain();
        let ghost held = self@;
        let mut op = PopOp::begin();
        let mut hand: Option<T> = None;
        proof {
            self.arena.lemma_wf();
        }
        loop
            invariant_except_break
                self.arena.wf(),
                popping(self.arena@, op, hand, chain, held),
                op is Init || op is Shielded || op is Empty ==> self.arena@.memory == old(
                    self,
                ).arena@.memory,
                old(self).arena@.shields == 0,
                old(self).arena@.retired == Set::<usize>::empty(),
            ensures
                self.wf(),
                hand == top(held),
                self@ == popped(held),
                hand is None ==> self.arena@ == old(self).arena@,
            decreases pop_rank(op),
        {
            let ghost before = self.arena@;
            let action = op.action();
            proof {
                if chain.len() > 0 && (op is Shielded || op is Probing || op is Swapping) {
                    assert(before.memory.chained_at(chain, 0));
                    before.memory.lemma_unlink(chain);
                }
                if op is Retired {
                    before.memory.lemma_take_frame(chain.drop_first(), op->Retired_node);
                }
                if op is Taken {
                    before.memory.lemma_free_frame(chain.drop_first(), before.retired);
                    lemma_contains_rest(chain);
                }
            }
            let event = self.arena.perform(action, &mut hand);
            match event {
                Some(Event::Released) => {
                    proof {
                        let m = self.arena@.memory;
                        if op is Empty {
                            assert(before.memory.cells.remove_keys(before.retired)
                                =~= before.memory.cells);
                            m.lemma_chain_is(chain);
                        } else {
                            m.lemma_chain_is(chain.drop_first());
                            assert forall|a: usize| #[trigger] m.live(a) implies before.memory.live(
                                a,
                            ) && a != chain[0] by {}
                        }
                    }
                    break ;
                },
                Some(e) => {
                    proof {
                        assert forall|a: usize| #[trigger]
                            self.arena@.memory.live(a) implies before.memory.live(a) by {}
                    }
                    op = op.step(e);
                },
                None => {
                    break ;
                },
            }
        }
        hand
    }
}

} // verus!
