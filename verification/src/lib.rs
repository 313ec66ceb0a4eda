//! A lock-free LIFO stack, laid out so that its logic can be proved.
//!
//! `push` and `pop` of a shared stack are retry loops around a
//! compare-and-swap of the head pointer, with a reclamation collaborator
//! that frees an unlinked node only when no thread can still be looking at
//! it. Here the loops are cut at every access to shared memory:
//!
//! * [`protocol`] holds the decisions. [`protocol::PushOp`] and
//!   [`protocol::PopOp`] say which action comes next and take the outcome of
//!   the last one. They work on plain addresses and touch no memory, so any
//!   backend can drive them.
//! * [`memory`] says what each action does to the memory, as a mathematical
//!   value: a head word and a set of nodes, each with a value and a link.
//! * [`system`] puts any number of threads on one memory, together with what
//!   the collaborator promises, and [`linearize`] proves that every run of
//!   it is safe and looks to the callers like a run of the [`atomic`]
//!   stack. [`history`] and [`lifo`] hold what follows for the callers,
//!   and [`progress`] shows that threads cannot hold one another up.
//! * [`arena`] is a memory that can be run: one owner performs the actions
//!   of as many operations as it likes, in any order.
//! * [`stack`] is the stack for a single owner: the protocol run against an
//!   arena.
//!
//! Addresses are plain `usize` words; [`protocol::NULL`] is the null address.

pub mod arena;
pub mod atomic;
pub mod history;
pub mod lifo;
pub mod linearize;
pub mod memory;
pub mod progress;
pub mod protocol;
pub mod stack;
pub mod system;

pub use crate::stack::Stack;
