//! The decisions of `push` and `pop`.
//!
//! Each operation is a value that knows which [`Action`] it is waiting for.
//! Whoever drives it performs that action on the shared memory and reports
//! the outcome as an [`Event`]; [`PushOp::step`] and [`PopOp::step`] then say
//! where the operation stands next. The machines never touch memory
//! themselves, so the same decisions serve any backend.

use vstd::prelude::*;

verus! {

/// The null address: the head of an empty stack, the link of the bottom node.
pub const NULL: usize = 0;

/// The memory ordering an action is to be performed with.
#[derive(Clone, Copy, Debug, PartialEq, Eq, Structural)]
pub enum Order {
    Relaxed,
    Acquire,
}

/// One indivisible piece of work on the shared memory or on the reclamation
/// collaborator.
#[derive(Clone, Copy, Debug, PartialEq, Eq, Structural)]
pub enum Action {
    /// Acquire a shield; it is held until `Finish`.
    Protect,
    /// Allocate a node that holds the value being pushed. Its link is not
    /// yet meaningful and no other thread can see it.
    Allocate,
    /// Read the head word.
    LoadHead { order: Order },
    /// Write `next` into the link of `node`, which is not yet published.
    StoreNext { node: usize, next: usize, order: Order },
    /// Read the link of `node`.
    LoadNext { node: usize, order: Order },
    /// Replace the head word by `new` if it still holds `expected`.
    CasHead { expected: usize, new: usize, success: Order, failure: Order },
    /// Hand the unlinked `node` to the collaborator for a deferred free.
    Retire { node: usize },
    /// Move the value out of the unlinked `node`.
    TakeData { node: usize },
    /// Release the shield and return to the caller.
    Finish,
}

/// What came of an action.
#[derive(Clone, Copy, Debug, PartialEq, Eq, Structural)]
pub enum Event {
    /// `Protect` is done: the shield is held.
    Protected,
    /// `Allocate` is done: the new node lives at `node`.
    Allocated { node: usize },
    /// `LoadHead` read `value`.
    Head { value: usize },
    /// `StoreNext` is done.
    Stored,
    /// `LoadNext` read `value`.
    Next { value: usize },
    /// `CasHead` wrote the new head.
    Swapped,
    /// `CasHead` found another head, `current`, and wrote nothing.
    Contended { current: usize },
    /// `Retire` is done.
    Retired,
    /// `TakeData` is done: the value is in the caller's hands.
    Taken,
    /// `Finish` is done: the shield is released.
    Released,
}

/// A `push` in progress.
#[derive(Clone, Copy, Debug, PartialEq, Eq, Structural)]
pub enum PushOp {
    /// Nothing done yet.
    Init,
    /// The shield is held.
    Shielded,
    /// The node is allocated; the head has to be read (again).
    Ready { node: usize },
    /// The head was read as `head`; the node's link has to be set to it.
    Snapshot { node: usize, head: usize },
    /// The node's link holds `head`; the head has to be swung to the node.
    Linked { node: usize, head: usize },
    /// The node is the published head.
    Done { node: usize },
}

/// A `pop` in progress.
#[derive(Clone, Copy, Debug, PartialEq, Eq, Structural)]
pub enum PopOp {
    /// Nothing done yet.
    Init,
    /// The shield is held; the head has to be read (again).
    Shielded,
    /// The head was read as the non-null `head`; its link has to be read.
    Probing { head: usize },
    /// The link of `head` was read as `next`; the head has to be swung to it.
    Swapping { head: usize, next: usize },
    /// `node` is unlinked and belongs to this operation alone.
    Unlinked { node: usize },
    /// `node` is in the collaborator's hands; its value is still to be taken.
    Retired { node: usize },
    /// The value of `node` was taken: the operation returns it.
    Taken { node: usize },
    /// The head was null: the operation returns nothing.
    Empty,
}

impl PushOp {
    /// The action the operation is waiting for.
    pub open spec fn pending(self) -> Action {
        match self {
            PushOp::Init => Action::Protect,
            PushOp::Shielded => Action::Allocate,
            PushOp::Ready { node } => Action::LoadHead { order: Order::Relaxed },
            PushOp::Snapshot { node, head } => Action::StoreNext {
                node,
                next: head,
                order: Order::Relaxed,
            },
            PushOp::Linked { node, head } => Action::CasHead {
                expected: head,
                new: node,
                success: Order::Acquire,
                failure: Order::Relaxed,
            },
            PushOp::Done { node } => Action::Finish,
        }
    }

    /// Where the operation stands once `event` has been reported. An event
    /// that does not answer the pending action changes nothing; neither does
    /// an allocation at the null address.
    pub open spec fn after(self, event: Event) -> PushOp {
        match (self, event) {
            (PushOp::Init, Event::Protected) => PushOp::Shielded,
            (PushOp::Shielded, Event::Allocated { node }) => if node == NULL {
                self
            } else {
                PushOp::Ready { node }
            },
            (PushOp::Ready { node }, Event::Head { value }) => PushOp::Snapshot {
                node,
                head: value,
            },
            (PushOp::Snapshot { node, head }, Event::Stored) => PushOp::Linked { node, head },
            (PushOp::Linked { node, head }, Event::Swapped) => PushOp::Done { node },
            (PushOp::Linked { node, head }, Event::Contended { current }) => PushOp::Ready {
                node,
            },
            _ => self,
        }
    }

    /// Whether the value is in the stack: only `Finish` is left to do.
    pub open spec fn finished(self) -> bool {
        self is Done
    }

    /// A fresh `push`.
    pub fn begin() -> (op: PushOp)
        ensures
            op == PushOp::Init,
    {
        PushOp::Init
    }

    /// The action to perform next.
    pub fn action(&self) -> (a: Action)
        ensures
            a == self.pending(),
    {
        match *self {
            PushOp::Init => Action::Protect,
            PushOp::Shielded => Action::Allocate,
            PushOp::Ready { .. } => Action::LoadHead { order: Order::Relaxed },
            PushOp::Snapshot { node, head } => Action::StoreNext {
                node,
                next: head,
                order: Order::Relaxed,
            },
            PushOp::Linked { node, head } => Action::CasHead {
                expected: head,
                new: node,
                success: Order::Acquire,
                failure: Order::Relaxed,
            },
            PushOp::Done { .. } => Action::Finish,
        }
    }

    /// Takes the outcome of the pending action and moves on. A failed swap
    /// sends the operation back to reading the head, with the same node.
    pub fn step(self, event: Event) -> (op: PushOp)
        ensures
            op == self.after(event),
    {
        match self {
            PushOp::Init => match event {
                Event::Protected => PushOp::Shielded,
                _ => self,
            },
            PushOp::Shielded => match event {
                Event::Allocated { node } => {
                    if node == NULL {
                        self
                    } else {
                        PushOp::Ready { node }
                    }
                },
                _ => self,
            },
            PushOp::Ready { node } => match event {
                Event::Head { value } => PushOp::Snapshot { node, head: value },
                _ => self,
            },
            PushOp::Snapshot { node, head } => match event {
                Event::Stored => PushOp::Linked { node, head },
                _ => self,
            },
            PushOp::Linked { node, .. } => match event {
                Event::Swapped => PushOp::Done { node },
                Event::Contended { .. } => PushOp::Ready { node },
                _ => self,
            },
            PushOp::Done { .. } => self,
        }
    }

    /// Whether only `Finish` is left to do.
    pub fn is_finished(&self) -> (b: bool)
        ensures
            b == self.finished(),
    {
        match *self {
            PushOp::Done { .. } => true,
            _ => false,
        }
    }
}

impl PopOp {
    /// The action the operation is waiting for.
    pub open spec fn pending(self) -> Action {
        match self {
            PopOp::Init => Action::Protect,
            PopOp::Shielded => Action::LoadHead { order: Order::Acquire },
            PopOp::Probing { head } => Action::LoadNext { node: head, order: Order::Relaxed },
            PopOp::Swapping { head, next } => Action::CasHead {
                expected: head,
                new: next,
                success: Order::Acquire,
                failure: Order::Relaxed,
            },
            PopOp::Unlinked { node } => Action::Retire { node },
            PopOp::Retired { node } => Action::TakeData { node },
            PopOp::Taken { node } => Action::Finish,
            PopOp::Empty => Action::Finish,
        }
    }

    /// Where the operation stands once `event` has been reported. An event
    /// that does not answer the pending action changes nothing.
    pub open spec fn after(self, event: Event) -> PopOp {
        match (self, event) {
            (PopOp::Init, Event::Protected) => PopOp::Shielded,
            (PopOp::Shielded, Event::Head { value }) => if value == NULL {
                PopOp::Empty
            } else {
                PopOp::Probing { head: value }
            },
            (PopOp::Probing { head }, Event::Next { value }) => PopOp::Swapping {
                head,
                next: value,
            },
            (PopOp::Swapping { head, next }, Event::Swapped) => PopOp::Unlinked { node: head },
            (PopOp::Swapping { head, next }, Event::Contended { current }) => PopOp::Shielded,
            (PopOp::Unlinked { node }, Event::Retired) => PopOp::Retired { node },
            (PopOp::Retired { node }, Event::Taken) => PopOp::Taken { node },
            _ => self,
        }
    }

    /// Whether the result is settled: only `Finish` is left to do.
    pub open spec fn finished(self) -> bool {
        self is Taken || self is Empty
    }

    /// The node whose value a finished operation returns, if it returns one.
    pub open spec fn source(self) -> Option<usize> {
        match self {
            PopOp::Taken { node } => Some(node),
            _ => None,
        }
    }

    /// A fresh `pop`.
    pub fn begin() -> (op: PopOp)
        ensures
            op == PopOp::Init,
    {
        PopOp::Init
    }

    /// The action to perform next.
    pub fn action(&self) -> (a: Action)
        ensures
            a == self.pending(),
    {
        match *self {
            PopOp::Init => Action::Protect,
            PopOp::Shielded => Action::LoadHead { order: Order::Acquire },
            PopOp::Probing { head } => Action::LoadNext { node: head, order: Order::Relaxed },
            PopOp::Swapping { head, next } => Action::CasHead {
                expected: head,
                new: next,
                success: Order::Acquire,
                failure: Order::Relaxed,
            },
            PopOp::Unlinked { node } => Action::Retire { node },
            PopOp::Retired { node } => Action::TakeData { node },
            PopOp::Taken { .. } => Action::Finish,
            PopOp::Empty => Action::Finish,
        }
    }

    /// Takes the outcome of the pending action and moves on. A null head
    /// settles the result as empty; a failed swap sends the operation back
    /// to reading the head.
    pub fn step(self, event: Event) -> (op: PopOp)
        ensures
            op == self.after(event),
    {
        match self {
            PopOp::Init => match event {
                Event::Protected => PopOp::Shielded,
                _ => self,
            },
            PopOp::Shielded => match event {
                Event::Head { value } => {
                    if value == NULL {
                        PopOp::Empty
                    } else {
                        PopOp::Probing { head: value }
                    }
                },
                _ => self,
            },
            PopOp::Probing { head } => match event {
                Event::Next { value } => PopOp::Swapping { head, next: value },
                _ => self,
            },
            PopOp::Swapping { head, .. } => match event {
                Event::Swapped => PopOp::Unlinked { node: head },
                Event::Contended { .. } => PopOp::Shielded,
                _ => self,
            },
            PopOp::Unlinked { node } => match event {
                Event::Retired => PopOp::Retired { node },
                _ => self,
            },
            PopOp::Retired { node } => match event {
                Event::Taken => PopOp::Taken { node },
                _ => self,
            },
            PopOp::Taken { .. } => self,
            PopOp::Empty => self,
        }
    }

    /// Whether only `Finish` is left to do.
    pub fn is_finished(&self) -> (b: bool)
        ensures
            b == self.finished(),
    {
        match *self {
            PopOp::Taken { .. } => true,
            PopOp::Empty => true,
            _ => false,
        }
    }
}

} // verus!
