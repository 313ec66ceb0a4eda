//! A memory that one owner drives: the nodes live in a vector, an address is
//! an index into it, and a retired node is freed when the last shield is
//! released.
//!
//! [`Arena::perform`] carries out one [`Action`] and reports the [`Event`],
//! exactly as [`Heap::performs`] describes. Stepping several operations by
//! turns against one arena plays out any interleaving of them.

use vstd::prelude::*;
use crate::memory::{Cell, Memory};
use crate::protocol::{Action, Event, NULL};

verus! {

/// What an arena stands for: the memory, the number of shields that are
/// held, and the nodes that are retired and not yet freed.
pub struct Heap<T> {
    pub memory: Memory<T>,
    pub shields: nat,
    pub retired: Set<usize>,
}

impl<T> Heap<T> {
    /// Nothing allocated, no shield held.
    pub open spec fn empty() -> Heap<T> {
        Heap { memory: Memory::empty(), shields: 0, retired: Set::empty() }
    }

    /// Whether `action` can be performed. `value` is what the caller brings:
    /// an allocation needs a value to store. The memory has to permit the
    /// action; a node is retired at most once; a shield can be acquired only
    /// while the count fits a word, and released only while one is held.
    pub open spec fn permits(self, action: Action, value: Option<T>) -> bool {
        &&& self.memory.permits(action)
        &&& match action {
            Action::Protect => self.shields < usize::MAX,
            Action::Allocate => value is Some,
            Action::Retire { node } => !self.retired.contains(node),
            Action::Finish => self.shields > 0,
            _ => true,
        }
    }

    /// The heap once every retired node is freed.
    pub open spec fn reclaimed(self) -> Heap<T> {
        Heap {
            memory: Memory {
                cells: self.memory.cells.remove_keys(self.retired),
                ..self.memory
            },
            retired: Set::empty(),
            ..self
        }
    }

    /// The collaborator's books once `action` is performed: `Protect` and
    /// `Finish` count the shields, `Retire` notes the node, and the release
    /// of the last shield frees every retired node.
    pub open spec fn books(self, action: Action) -> Heap<T> {
        match action {
            Action::Protect => Heap { shields: self.shields + 1, ..self },
            Action::Retire { node } => Heap { retired: self.retired.insert(node), ..self },
            Action::Finish => {
                let released = Heap { shields: (self.shields - 1) as nat, ..self };
                if released.shields == 0 {
                    released.reclaimed()
                } else {
                    released
                }
            },
            _ => self,
        }
    }

    /// Whether performing `action` on `self`, with `value` in the caller's
    /// hands, leads to `post`, reports `event` and leaves `rest` in the
    /// caller's hands. An allocation lands at an address that is not null
    /// and not in use, with a null link.
    pub open spec fn performs(
        self,
        action: Action,
        value: Option<T>,
        post: Heap<T>,
        event: Event,
        rest: Option<T>,
    ) -> bool {
        let node = if event is Allocated {
            event->Allocated_node
        } else {
            NULL
        };
        &&& action is Allocate ==> node != NULL && !self.memory.live(node)
        &&& event == self.memory.report(action, node)
        &&& rest == self.memory.hands(action, value)
        &&& post == (Heap { memory: self.memory.after(action, value, node, NULL), ..self }).books(
            action,
        )
    }
}

/// Where a slot of the arena stands.
#[derive(Clone, Copy, Debug, PartialEq, Eq, Structural)]
enum Stage {
    /// No node here.
    Free,
    /// A node, not retired.
    Live,
    /// A node that is retired and will be freed.
    Retired,
}

struct Slot<T> {
    data: Option<T>,
    next: usize,
    stage: Stage,
}

/// A memory owned by one caller.
pub struct Arena<T> {
    head: usize,
    /// Slot `a` is the node at address `a`; slot 0 stands for null and is
    /// never handed out.
    slots: Vec<Slot<T>>,
    /// Freed addresses, ready to be handed out again.
    spare: Vec<usize>,
    /// Retired addresses, waiting for the last shield to go.
    limbo: Vec<usize>,
    shields: usize,
}

impl<T> View for Arena<T> {
    type V = Heap<T>;

    closed spec fn view(&self) -> Heap<T> {
        Heap {
            memory: Memory {
                head: self.head,
                cells: Map::new(
                    |a: usize| a < self.slots@.len() && self.slots@[a as int].stage != Stage::Free,
                    |a: usize|
                        Cell { data: self.slots@[a as int].data, next: self.slots@[a as int].next },
                ),
            },
            shields: self.shields as nat,
            retired: Set::new(
                |a: usize| a < self.slots@.len() && self.slots@[a as int].stage == Stage::Retired,
            ),
        }
    }
}

impl<T> Arena<T> {
    /// The bookkeeping is sound: null is never a node, the spare addresses
    /// are free, and the addresses in limbo are exactly the retired nodes.
    pub closed spec fn wf(&self) -> bool {
        &&& self.slots@.len() >= 1
        &&& self.slots@[0].stage == Stage::Free
        &&& self.spare@.no_duplicates()
        &&& self.limbo@.no_duplicates()
        &&& forall|i: int|
            0 <= i < self.spare@.len() ==> 0 < #[trigger] self.spare@[i] < self.slots@.len()
                && self.slots@[self.spare@[i] as int].stage == Stage::Free
        &&& forall|i: int|
            0 <= i < self.limbo@.len() ==> #[trigger] self.limbo@[i] < self.slots@.len()
                && self.slots@[self.limbo@[i] as int].stage == Stage::Retired
        &&& forall|a: usize|
            a < self.slots@.len() && (#[trigger] self.slots@[a as int]).stage == Stage::Retired
                ==> self.limbo@.contains(a)
    }

    /// In a sound arena null is not a node and every retired node exists.
    pub proof fn lemma_wf(&self)
        requires
            self.wf(),
        ensures
            !self@.memory.live(NULL),
            forall|a: usize| self@.retired.contains(a) ==> self@.memory.live(a),
    {
    }

    /// An arena with no node and no shield.
    pub fn new() -> (arena: Arena<T>)
        ensures
            arena.wf(),
            arena@ == Heap::<T>::empty(),
    {
        let mut slots: Vec<Slot<T>> = Vec::new();
        slots.push(Slot { data: None, next: NULL, stage: Stage::Free });
        let arena = Arena { head: NULL, slots, spare: Vec::new(), limbo: Vec::new(), shields: 0 };
        assert(arena@.memory.cells =~= Map::<usize, Cell<T>>::empty());
        assert(arena@.retired =~= Set::<usize>::empty());
        arena
    }

    /// Whether a node exists at `node`.
    fn is_live(&self, node: usize) -> (b: bool)
        requires
            self.wf(),
        ensures
            b == self@.memory.live(node),
    {
        node < self.slots.len() && self.slots[node].stage != Stage::Free
    }

    /// Stores `value` in a node that did not exist and returns its address.
    fn allocate(&mut self, value: T) -> (node: usize)
        requires
            old(self).wf(),
        ensures
            final(self).wf(),
            node != NULL,
            !old(self)@.memory.live(node),
            final(self)@ == (Heap {
                memory: old(self)@.memory.allocate(node, value, NULL),
                ..old(self)@
            }),
    {
        let slot = Slot { data: Some(value), next: NULL, stage: Stage::Live };
        match self.spare.pop() {
            Some(node) => {
                assert(old(self).spare@[old(self).spare@.len() - 1] == node);
                self.slots[node] = slot;
                proof {
                    assert forall|i: int| 0 <= i < self.spare@.len() implies 0
                        < #[trigger] self.spare@[i] < self.slots@.len()
                        && self.slots@[self.spare@[i] as int].stage == Stage::Free by {
                        assert(old(self).spare@[i] == self.spare@[i]);
                    }
                    assert forall|i: int| 0 <= i < self.limbo@.len() implies #[trigger] self.limbo@[i]
                        < self.slots@.len() && self.slots@[self.limbo@[i] as int].stage
                        == Stage::Retired by {
                        assert(old(self).limbo@[i] == self.limbo@[i]);
                    }
                    assert forall|a: usize|
                        a < self.slots@.len() && (#[trigger] self.slots@[a as int]).stage
                            == Stage::Retired implies self.limbo@.contains(a) by {
                        assert(old(self).slots@[a as int].stage == Stage::Retired);
                    }
                    assert(self@.memory.cells =~= old(self)@.memory.allocate(
                        node,
                        value,
                        NULL,
                    ).cells);
                    assert(self@.retired =~= old(self)@.retired);
                }
                node
            },
            None => {
                let node = self.slots.len();
                self.slots.push(slot);
                proof {
                    assert forall|a: usize|
                        a < self.slots@.len() && (#[trigger] self.slots@[a as int]).stage
                            == Stage::Retired implies self.limbo@.contains(a) by {
                        assert(old(self).slots@[a as int].stage == Stage::Retired);
                    }
                    assert(self@.memory.cells =~= old(self)@.memory.allocate(
                        node,
                        value,
                        NULL,
                    ).cells);
                    assert(self@.retired =~= old(self)@.retired);
                }
                node
            },
        }
    }

    /// Frees every node in limbo.
    fn reclaim(&mut self)
        requires
            old(self).wf(),
        ensures
            final(self).wf(),
            final(self)@ == old(self)@.reclaimed(),
    {
        while self.limbo.len() > 0
            invariant
                self.wf(),
                self.head == old(self).head,
                self.shields == old(self).shields,
                self.slots@.len() == old(self).slots@.len(),
                forall|a: int|
                    0 <= a < self.slots@.len() && (#[trigger] old(self).slots@[a]).stage
                        != Stage::Retired ==> self.slots@[a] == old(self).slots@[a],
                forall|a: int|
                    0 <= a < self.slots@.len() && (#[trigger] old(self).slots@[a]).stage
                        == Stage::Retired ==> self.slots@[a].stage == Stage::Free
                        || self.slots@[a] == old(self).slots@[a],
            decreases self.limbo@.len(),
        {
            let ghost before = *self;
            let node = self.limbo.pop().unwrap();
            assert(before.limbo@[before.limbo@.len() - 1] == node);
            assert(forall|i: int|
                0 <= i < self.limbo@.len() ==> self.limbo@[i] == before.limbo@[i]);
            let slot = &mut self.slots[node];
            slot.data = None;
            slot.stage = Stage::Free;
            self.spare.push(node);
            proof {
                assert(node != 0);
                assert forall|i: int| 0 <= i < self.spare@.len() implies 0
                    < #[trigger] self.spare@[i] < self.slots@.len()
                    && self.slots@[self.spare@[i] as int].stage == Stage::Free by {
                    if i < before.spare@.len() {
                        assert(before.spare@[i] == self.spare@[i]);
                    }
                }
                assert forall|i: int, j: int|
                    0 <= i < self.spare@.len() && 0 <= j < self.spare@.len() && i
                        != j implies self.spare@[i] != self.spare@[j] by {
                    if i < before.spare@.len() {
                        assert(before.spare@[i] == self.spare@[i]);
                    }
                    if j < before.spare@.len() {
                        assert(before.spare@[j] == self.spare@[j]);
                    }
                }
                assert forall|i: int| 0 <= i < self.limbo@.len() implies #[trigger] self.limbo@[i]
                    < self.slots@.len() && self.slots@[self.limbo@[i] as int].stage
                    == Stage::Retired by {
                    assert(before.limbo@[i] == self.limbo@[i]);
                }
                assert forall|a: usize|
                    a < self.slots@.len() && (#[trigger] self.slots@[a as int]).stage
                        == Stage::Retired implies self.limbo@.contains(a) by {
                    assert(before.slots@[a as int].stage == Stage::Retired);
                    let i = choose|i: int| 0 <= i < before.limbo@.len() && before.limbo@[i] == a;
                    assert(self.limbo@[i] == a);
                }
            }
        }
        proof {
            assert forall|a: usize| a < self.slots@.len() implies (#[trigger] self.slots@[a as int]).stage
                != Stage::Retired by {
                if self.slots@[a as int].stage == Stage::Retired {
                    assert(self.limbo@.contains(a));
                }
            }
            assert(self@.retired =~= Set::<usize>::empty());
            assert(self@.memory.cells =~= old(self)@.reclaimed().memory.cells);
        }
    }

    /// Carries out `action` and reports what came of it, or reports nothing
    /// and changes nothing where the action cannot be performed. `value` is
    /// the caller's hand: an allocation empties it into the new node, taking
    /// a node's value fills it.
    pub fn perform(&mut self, action: Action, value: &mut Option<T>) -> (event: Option<Event>)
        requires
            old(self).wf(),
        ensures
            final(self).wf(),
            event is Some <==> old(self)@.permits(action, *old(value)),
            event is Some ==> old(self)@.performs(
                action,
                *old(value),
                final(self)@,
                event->0,
                *final(value),
            ),
            event is None ==> final(self)@ == old(self)@ && *final(value) == *old(value),
    {
        match action {
            Action::Protect => {
                if self.shields == usize::MAX {
                    return None;
                }
                self.shields = self.shields + 1;
                Some(Event::Protected)
            },
            Action::Allocate => {
                match value.take() {
                    None => None,
                    Some(v) => {
                        let node = self.allocate(v);
                        Some(Event::Allocated { node })
                    },
                }
            },
            Action::LoadHead { .. } => Some(Event::Head { value: self.head }),
            Action::StoreNext { node, next, .. } => {
                if !self.is_live(node) {
                    return None;
                }
                let slot = &mut self.slots[node];
                slot.next = next;
                proof {
                    self.lemma_same_stages(old(self));
                    assert(self@.memory.cells =~= old(self)@.memory.store_next(node, next).cells);
                    assert(self@.retired =~= old(self)@.retired);
                }
                Some(Event::Stored)
            },
            Action::LoadNext { node, .. } => {
                if !self.is_live(node) {
                    return None;
                }
                Some(Event::Next { value: self.slots[node].next })
            },
            Action::CasHead { expected, new, .. } => {
                if self.head == expected {
                    self.head = new;
                    Some(Event::Swapped)
                } else {
                    Some(Event::Contended { current: self.head })
                }
            },
            Action::Retire { node } => {
                if !(node < self.slots.len() && self.slots[node].stage == Stage::Live) {
                    return None;
                }
                let slot = &mut self.slots[node];
                slot.stage = Stage::Retired;
                self.limbo.push(node);
                proof {
                    assert forall|i: int| 0 <= i < self.spare@.len() implies 0
                        < #[trigger] self.spare@[i] < self.slots@.len()
                        && self.slots@[self.spare@[i] as int].stage == Stage::Free by {
                        assert(old(self).spare@[i] == self.spare@[i]);
                    }
                    assert forall|i: int, j: int|
                        0 <= i < self.limbo@.len() && 0 <= j < self.limbo@.len() && i
                            != j implies self.limbo@[i] != self.limbo@[j] by {
                        if i < old(self).limbo@.len() {
                            assert(old(self).limbo@[i] == self.limbo@[i]);
                        }
                        if j < old(self).limbo@.len() {
                            assert(old(self).limbo@[j] == self.limbo@[j]);
                        }
                    }
                    assert forall|a: usize|
                        a < self.slots@.len() && (#[trigger] self.slots@[a as int]).stage
                            == Stage::Retired implies self.limbo@.contains(a) by {
                        if a == node {
                            assert(self.limbo@[self.limbo@.len() - 1] == node);
                        } else {
                            assert(old(self).slots@[a as int].stage == Stage::Retired);
                            let i = choose|i: int|
                                0 <= i < old(self).limbo@.len() && old(self).limbo@[i] == a;
                            assert(self.limbo@[i] == a);
                        }
                    }
                    assert(self@.memory.cells =~= old(self)@.memory.cells);
                    assert(self@.retired =~= old(self)@.retired.insert(node));
                }
                Some(Event::Retired)
            },
            Action::TakeData { node } => {
                if !(self.is_live(node) && self.slots[node].data.is_some()) {
                    return None;
                }
                let slot = &mut self.slots[node];
                *value = slot.data.take();
                proof {
                    self.lemma_same_stages(old(self));
                    assert(self@.memory.cells =~= old(self)@.memory.take(node).cells);
                    assert(self@.retired =~= old(self)@.retired);
                }
                Some(Event::Taken)
            },
            Action::Finish => {
                if self.shields == 0 {
                    return None;
                }
                self.shields = self.shields - 1;
                if self.shields == 0 {
                    self.reclaim();
                }
                Some(Event::Released)
            },
        }
    }

    /// An arena that differs from a sound one only in what its slots hold,
    /// not in where they stand, is sound.
    proof fn lemma_same_stages(&self, before: &Arena<T>)
        requires
            before.wf(),
            self.spare == before.spare,
            self.limbo == before.limbo,
            self.slots@.len() == before.slots@.len(),
            forall|a: int|
                0 <= a < self.slots@.len() ==> (#[trigger] self.slots@[a]).stage
                    == before.slots@[a].stage,
        ensures
            self.wf(),
    {
        assert forall|a: usize|
            a < self.slots@.len() && (#[trigger] self.slots@[a as int]).stage
                == Stage::Retired implies self.limbo@.contains(a) by {
            assert(before.slots@[a as int].stage == Stage::Retired);
        }
    }
}

} // verus!
