//! The shared memory as a mathematical value.
//!
//! A [`Memory`] is the head word together with the nodes that are allocated
//! and not yet freed. The nodes reached from the head by following links form
//! the *chain*; the values they hold, top first, are the *contents* of the
//! stack. The functions here say what each action does to a memory, and the
//! lemmas say what it does to the chain.

use vstd::prelude::*;
use crate::protocol::{Action, Event, NULL};

verus! {

/// One node: the stored value, until it is moved out, and the link to the
/// node below.
pub struct Cell<T> {
    pub data: Option<T>,
    pub next: usize,
}

/// The head word and the nodes that exist.
pub struct Memory<T> {
    pub head: usize,
    pub cells: Map<usize, Cell<T>>,
}

/// The address a sequence of nodes starts at: its first node, or null.
pub open spec fn first_or_null(c: Seq<usize>) -> usize {
    if c.len() == 0 {
        NULL
    } else {
        c[0]
    }
}

impl<T> Memory<T> {
    /// No node, null head.
    pub open spec fn empty() -> Memory<T> {
        Memory { head: NULL, cells: Map::empty() }
    }

    /// Whether a node exists at `a`.
    pub open spec fn live(self, a: usize) -> bool {
        self.cells.contains_key(a)
    }

    /// A new node at `node`, holding `value` and linked to `link`.
    pub open spec fn allocate(self, node: usize, value: T, link: usize) -> Memory<T> {
        Memory { cells: self.cells.insert(node, Cell { data: Some(value), next: link }), ..self }
    }

    /// The link of `node` set to `next`.
    pub open spec fn store_next(self, node: usize, next: usize) -> Memory<T> {
        Memory {
            cells: self.cells.insert(node, Cell { data: self.cells[node].data, next }),
            ..self
        }
    }

    /// Whether a swap that expects `expected` succeeds.
    pub open spec fn swaps(self, expected: usize) -> bool {
        self.head == expected
    }

    /// The head swung from `expected` to `new`, if it held `expected`.
    pub open spec fn swap(self, expected: usize, new: usize) -> Memory<T> {
        if self.swaps(expected) {
            Memory { head: new, ..self }
        } else {
            self
        }
    }

    /// The value of `node` moved out.
    pub open spec fn take(self, node: usize) -> Memory<T> {
        Memory {
            cells: self.cells.insert(node, Cell { data: None, next: self.cells[node].next }),
            ..self
        }
    }

    /// The node at `node` freed.
    pub open spec fn free(self, node: usize) -> Memory<T> {
        Memory { cells: self.cells.remove(node), ..self }
    }

    /// Whether the memory lets `action` be performed: a node is written,
    /// read, retired or emptied only while it exists, and emptied only while
    /// it holds its value.
    pub open spec fn permits(self, action: Action) -> bool {
        match action {
            Action::StoreNext { node, next, order } => self.live(node),
            Action::LoadNext { node, order } => self.live(node),
            Action::Retire { node } => self.live(node),
            Action::TakeData { node } => self.live(node) && self.cells[node].data is Some,
            _ => true,
        }
    }

    /// The memory once `action` is performed. An allocation stores `value`
    /// in a new node at `node`, whose link holds `link`; for every other
    /// action the three are ignored.
    pub open spec fn after(self, action: Action, value: Option<T>, node: usize, link: usize)
        -> Memory<T> {
        match action {
            Action::Allocate => self.allocate(node, value->0, link),
            Action::StoreNext { node, next, order } => self.store_next(node, next),
            Action::CasHead { expected, new, success, failure } => self.swap(expected, new),
            Action::TakeData { node } => self.take(node),
            _ => self,
        }
    }

    /// What `action` reports when performed on this memory; `node` is where
    /// an allocation lands.
    pub open spec fn report(self, action: Action, node: usize) -> Event {
        match action {
            Action::Protect => Event::Protected,
            Action::Allocate => Event::Allocated { node },
            Action::LoadHead { order } => Event::Head { value: self.head },
            Action::StoreNext { node, next, order } => Event::Stored,
            Action::LoadNext { node, order } => Event::Next { value: self.cells[node].next },
            Action::CasHead { expected, new, success, failure } => if self.swaps(expected) {
                Event::Swapped
            } else {
                Event::Contended { current: self.head }
            },
            Action::Retire { node } => Event::Retired,
            Action::TakeData { node } => Event::Taken,
            Action::Finish => Event::Released,
        }
    }

    /// What `action` leaves in the hand of whoever performs it, who held
    /// `value` before: an allocation takes the value, emptying a node gives
    /// the node's value.
    pub open spec fn hands(self, action: Action, value: Option<T>) -> Option<T> {
        match action {
            Action::Allocate => None,
            Action::TakeData { node } => self.cells[node].data,
            _ => value,
        }
    }

    /// Whether position `i` of `c` is a node that exists, holds a value and
    /// links to the next position of `c`, or to null at the end.
    pub open spec fn chained_at(self, c: Seq<usize>, i: int) -> bool {
        &&& c[i] != NULL
        &&& self.live(c[i])
        &&& self.cells[c[i]].data is Some
        &&& self.cells[c[i]].next == if i + 1 < c.len() {
            c[i + 1]
        } else {
            NULL
        }
    }

    /// Whether `c` lists the nodes reached from `start` by following links
    /// down to null, each once.
    pub open spec fn is_path(self, start: usize, c: Seq<usize>) -> bool {
        &&& start == first_or_null(c)
        &&& c.no_duplicates()
        &&& forall|i: int| 0 <= i < c.len() ==> #[trigger] self.chained_at(c, i)
    }

    /// Whether `c` lists the nodes linked into the stack, top first.
    pub open spec fn is_chain(self, c: Seq<usize>) -> bool {
        self.is_path(self.head, c)
    }

    /// Whether the links from the head form a finite, acyclic chain that ends
    /// in null.
    pub open spec fn well_linked(self) -> bool {
        exists|c: Seq<usize>| self.is_chain(c)
    }

    /// The nodes linked into the stack, top first.
    pub open spec fn chain(self) -> Seq<usize> {
        choose|c: Seq<usize>| self.is_chain(c)
    }

    /// The values held by the nodes of `c`, in the order of `c`.
    pub open spec fn values(self, c: Seq<usize>) -> Seq<T> {
        Seq::new(c.len(), |i: int| self.cells[c[i]].data->0)
    }

    /// The values in the stack, top first.
    pub open spec fn contents(self) -> Seq<T> {
        self.values(self.chain())
    }

    /// From one start there is at most one path.
    pub proof fn lemma_path_unique(self, start: usize, c1: Seq<usize>, c2: Seq<usize>)
        requires
            self.is_path(start, c1),
            self.is_path(start, c2),
        ensures
            c1 == c2,
        decreases c1.len(),
    {
        if c1.len() == 0 {
            if c2.len() > 0 {
                assert(self.chained_at(c2, 0));
            }
            assert(c1 =~= c2);
        } else {
            assert(self.chained_at(c1, 0));
            assert(c2.len() > 0);
            assert(self.chained_at(c2, 0));
            let t1 = c1.drop_first();
            let t2 = c2.drop_first();
            let below = self.cells[start].next;
            self.lemma_path_tail(start, c1);
            self.lemma_path_tail(start, c2);
            self.lemma_path_unique(below, t1, t2);
            assert(c1 =~= seq![start] + t1);
            assert(c2 =~= seq![start] + t2);
        }
    }

    /// What is left of a path below its first node is the path from that
    /// node's link.
    pub proof fn lemma_path_tail(self, start: usize, c: Seq<usize>)
        requires
            self.is_path(start, c),
            c.len() > 0,
        ensures
            self.is_path(self.cells[start].next, c.drop_first()),
    {
        let t = c.drop_first();
        assert(self.chained_at(c, 0));
        assert forall|i: int| 0 <= i < t.len() implies #[trigger] self.chained_at(t, i) by {
            assert(self.chained_at(c, i + 1));
        }
        assert forall|i: int, j: int| 0 <= i < t.len() && 0 <= j < t.len() && i != j implies t[i]
            != t[j] by {
            assert(c[i + 1] != c[j + 1]);
        }
    }

    /// A well-linked memory has exactly one chain: the one `chain` names.
    pub proof fn lemma_chain_is(self, c: Seq<usize>)
        requires
            self.is_chain(c),
        ensures
            self.well_linked(),
            self.chain() == c,
            self.contents() == self.values(c),
    {
        self.lemma_path_unique(self.head, self.chain(), c);
    }

    /// The chain is empty exactly when the head is null.
    pub proof fn lemma_empty_iff_null(self)
        requires
            self.well_linked(),
        ensures
            self.contents().len() == self.chain().len(),
            self.chain().len() == 0 <==> self.head == NULL,
    {
        let c = self.chain();
        if c.len() > 0 {
            assert(self.chained_at(c, 0));
        }
    }

    /// Every node of a path exists, is not null and holds a value.
    pub proof fn lemma_path_nodes(self, start: usize, c: Seq<usize>, a: usize)
        requires
            self.is_path(start, c),
            c.contains(a),
        ensures
            a != NULL,
            self.live(a),
            self.cells[a].data is Some,
    {
        let i = choose|i: int| 0 <= i < c.len() && c[i] == a;
        assert(self.chained_at(c, i));
    }

    /// A memory with the same head, in which the nodes of the chain are
    /// untouched, has the same chain and the same contents.
    pub proof fn lemma_chain_frame(self, other: Memory<T>, c: Seq<usize>)
        requires
            self.is_chain(c),
            other.head == self.head,
            forall|i: int|
                0 <= i < c.len() ==> other.live(#[trigger] c[i]) && other.cells[c[i]]
                    == self.cells[c[i]],
        ensures
            other.is_chain(c),
            other.values(c) == self.values(c),
    {
        assert forall|i: int| 0 <= i < c.len() implies #[trigger] other.chained_at(c, i) by {
            assert(self.chained_at(c, i));
        }
        assert(other.values(c) =~= self.values(c));
    }

    /// A new node is outside the chain and leaves it as it is.
    pub proof fn lemma_allocate_frame(self, c: Seq<usize>, node: usize, value: T, link: usize)
        requires
            self.is_chain(c),
            !self.live(node),
        ensures
            !c.contains(node),
            self.allocate(node, value, link).is_chain(c),
            self.allocate(node, value, link).values(c) == self.values(c),
    {
        if c.contains(node) {
            self.lemma_path_nodes(self.head, c, node);
        }
        assert forall|i: int| 0 <= i < c.len() implies #[trigger] c[i] != node by {
            assert(c.contains(c[i]));
        }
        assert forall|i: int| 0 <= i < c.len() implies self.live(#[trigger] c[i]) by {
            assert(self.chained_at(c, i));
        }
        self.lemma_chain_frame(self.allocate(node, value, link), c);
    }

    /// Setting the link of a node outside the chain leaves the chain as it
    /// is.
    pub proof fn lemma_store_frame(self, c: Seq<usize>, node: usize, next: usize)
        requires
            self.is_chain(c),
            !c.contains(node),
        ensures
            self.store_next(node, next).is_chain(c),
            self.store_next(node, next).values(c) == self.values(c),
    {
        assert forall|i: int| 0 <= i < c.len() implies #[trigger] c[i] != node by {
            assert(c.contains(c[i]));
        }
        assert forall|i: int| 0 <= i < c.len() implies self.live(#[trigger] c[i]) by {
            assert(self.chained_at(c, i));
        }
        self.lemma_chain_frame(self.store_next(node, next), c);
    }

    /// Moving the value out of a node outside the chain leaves the chain as
    /// it is.
    pub proof fn lemma_take_frame(self, c: Seq<usize>, node: usize)
        requires
            self.is_chain(c),
            !c.contains(node),
        ensures
            self.take(node).is_chain(c),
            self.take(node).values(c) == self.values(c),
    {
        assert forall|i: int| 0 <= i < c.len() implies #[trigger] c[i] != node by {
            assert(c.contains(c[i]));
        }
        assert forall|i: int| 0 <= i < c.len() implies self.live(#[trigger] c[i]) by {
            assert(self.chained_at(c, i));
        }
        self.lemma_chain_frame(self.take(node), c);
    }

    /// Freeing nodes outside the chain leaves the chain as it is.
    pub proof fn lemma_free_frame(self, c: Seq<usize>, gone: Set<usize>)
        requires
            self.is_chain(c),
            forall|a: usize| gone.contains(a) ==> !c.contains(a),
        ensures
            (Memory { cells: self.cells.remove_keys(gone), ..self }).is_chain(c),
            (Memory { cells: self.cells.remove_keys(gone), ..self }).values(c) == self.values(c),
    {
        assert forall|i: int| 0 <= i < c.len() implies !gone.contains(#[trigger] c[i]) by {
            assert(c.contains(c[i]));
        }
        assert forall|i: int| 0 <= i < c.len() implies self.live(#[trigger] c[i]) by {
            assert(self.chained_at(c, i));
        }
        self.lemma_chain_frame(Memory { cells: self.cells.remove_keys(gone), ..self }, c);
    }

    /// Swinging the head to a node outside the chain that holds a value and
    /// links to the old head puts that node on top of the chain.
    pub proof fn lemma_link(self, c: Seq<usize>, node: usize)
        requires
            self.is_chain(c),
            node != NULL,
            self.live(node),
            !c.contains(node),
            self.cells[node].data is Some,
            self.cells[node].next == self.head,
        ensures
            self.swap(self.head, node).is_chain(seq![node] + c),
            self.swap(self.head, node).values(seq![node] + c) == seq![self.cells[node].data->0]
                + self.values(c),
    {
        let after = self.swap(self.head, node);
        let d = seq![node] + c;
        assert forall|i: int| 0 <= i < d.len() implies #[trigger] after.chained_at(d, i) by {
            if i > 0 {
                assert(self.chained_at(c, i - 1));
            }
        }
        assert forall|i: int, j: int| 0 <= i < d.len() && 0 <= j < d.len() && i != j implies d[i]
            != d[j] by {
            if i > 0 && j > 0 {
                assert(c[i - 1] != c[j - 1]);
            } else if i > 0 {
                assert(c.contains(c[i - 1]));
            } else {
                assert(c.contains(c[j - 1]));
            }
        }
        assert(after.values(d) =~= seq![self.cells[node].data->0] + self.values(c));
    }

    /// Swinging the head from the top node to that node's link takes the top
    /// node off the chain.
    pub proof fn lemma_unlink(self, c: Seq<usize>)
        requires
            self.is_chain(c),
            c.len() > 0,
        ensures
            self.swaps(c[0]),
            self.swap(c[0], self.cells[c[0]].next).is_chain(c.drop_first()),
            self.swap(c[0], self.cells[c[0]].next).values(c.drop_first()) == self.values(
                c,
            ).drop_first(),
            !c.drop_first().contains(c[0]),
    {
        let after = self.swap(c[0], self.cells[c[0]].next);
        let t = c.drop_first();
        self.lemma_path_tail(self.head, c);
        assert forall|i: int| 0 <= i < t.len() implies #[trigger] after.chained_at(t, i) by {
            assert(self.chained_at(t, i));
        }
        assert(after.values(t) =~= self.values(c).drop_first());
        if t.contains(c[0]) {
            let j = choose|j: int| 0 <= j < t.len() && t[j] == c[0];
            assert(c[j + 1] == c[0]);
        }
    }

    /// Freeing one node outside the chain leaves the chain as it is.
    pub proof fn lemma_free_one_frame(self, c: Seq<usize>, node: usize)
        requires
            self.is_chain(c),
            !c.contains(node),
        ensures
            self.free(node).is_chain(c),
            self.free(node).values(c) == self.values(c),
    {
        assert forall|i: int| 0 <= i < c.len() implies #[trigger] c[i] != node by {
            assert(c.contains(c[i]));
        }
        assert forall|i: int| 0 <= i < c.len() implies self.live(#[trigger] c[i]) by {
            assert(self.chained_at(c, i));
        }
        self.lemma_chain_frame(self.free(node), c);
    }
}

} // verus!

verus! {

/// A sequence with `a` put in front holds `a` and what it held before.
pub proof fn lemma_contains_front(c: Seq<usize>, a: usize)
    ensures
        forall|x: usize| #[trigger] (seq![a] + c).contains(x) <==> x == a || c.contains(x),
{
    let d = seq![a] + c;
    assert forall|x: usize| #[trigger] d.contains(x) <==> x == a || c.contains(x) by {
        if d.contains(x) {
            let i = choose|i: int| 0 <= i < d.len() && d[i] == x;
            if i > 0 {
                assert(c[i - 1] == x);
            }
        }
        if x == a {
            assert(d[0] == x);
        }
        if c.contains(x) {
            let i = choose|i: int| 0 <= i < c.len() && c[i] == x;
            assert(d[i + 1] == x);
        }
    }
}

/// A sequence without its first element holds what it held before, but for
/// that element.
pub proof fn lemma_contains_rest(c: Seq<usize>)
    requires
        c.len() > 0,
    ensures
        forall|x: usize| #[trigger] c.drop_first().contains(x) ==> c.contains(x),
        forall|x: usize| c.contains(x) && x != c[0] ==> #[trigger] c.drop_first().contains(x),
{
    let d = c.drop_first();
    assert forall|x: usize| #[trigger] d.contains(x) implies c.contains(x) by {
        let i = choose|i: int| 0 <= i < d.len() && d[i] == x;
        assert(c[i + 1] == x);
    }
    assert forall|x: usize| c.contains(x) && x != c[0] implies #[trigger] d.contains(x) by {
        let i = choose|i: int| 0 <= i < c.len() && c[i] == x;
        assert(d[i - 1] == x);
    }
}

} // verus!
