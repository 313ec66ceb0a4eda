//! The stack as callers may think of it: a sequence of values on which every
//! call takes effect at one instant between its start and its return.

use vstd::prelude::*;

verus! {

/// The sequence with `value` put on top. Index 0 is the top.
pub open spec fn pushed<T>(stack: Seq<T>, value: T) -> Seq<T> {
    seq![value] + stack
}

/// What a `pop` returns on `stack`: the top value, or nothing if there is
/// none.
pub open spec fn top<T>(stack: Seq<T>) -> Option<T> {
    if stack.len() == 0 {
        None
    } else {
        Some(stack[0])
    }
}

/// What a `pop` leaves of `stack`: all but the top value.
pub open spec fn popped<T>(stack: Seq<T>) -> Seq<T> {
    if stack.len() == 0 {
        stack
    } else {
        stack.drop_first()
    }
}

/// A call that is under way.
pub enum Call<T> {
    /// `push(value)`, not yet in effect.
    Push { value: T },
    /// A `push` that is in effect.
    Pushed,
    /// `pop()`, not yet in effect.
    Pop,
    /// A `pop` that is in effect and will return `result`.
    Popped { result: Option<T> },
}

/// The values in the stack, top first, and the calls under way.
pub struct Atomic<T> {
    pub stack: Seq<T>,
    pub calls: Map<nat, Call<T>>,
}

/// What one move means to the callers.
pub enum Label<T> {
    /// Nothing a caller could tell.
    Silent,
    /// `thread` starts `call`.
    Invoke { thread: nat, call: Call<T> },
    /// The call of `thread` takes effect.
    Effect { thread: nat },
    /// The call of `thread` returns `value`; a `push` returns nothing.
    Return { thread: nat, value: Option<T> },
}

impl<T> Atomic<T> {
    /// Empty stack, no call under way.
    pub open spec fn init() -> Atomic<T> {
        Atomic { stack: Seq::empty(), calls: Map::empty() }
    }

    /// Whether the move `label` leads from `self` to `post`. A call starts
    /// only on a thread that has none, takes effect once, on the whole stack
    /// at once, and returns only after it took effect, with the result it
    /// had then.
    pub open spec fn next(self, label: Label<T>, post: Atomic<T>) -> bool {
        match label {
            Label::Silent => post == self,
            Label::Invoke { thread, call } => {
                &&& !self.calls.contains_key(thread)
                &&& call is Push || call is Pop
                &&& post == Atomic { calls: self.calls.insert(thread, call), ..self }
            },
            Label::Effect { thread } => {
                &&& self.calls.contains_key(thread)
                &&& match self.calls[thread] {
                    Call::Push { value } => post == Atomic {
                        stack: pushed(self.stack, value),
                        calls: self.calls.insert(thread, Call::Pushed),
                    },
                    Call::Pop => post == Atomic {
                        stack: popped(self.stack),
                        calls: self.calls.insert(thread, Call::Popped { result: top(self.stack) }),
                    },
                    _ => false,
                }
            },
            Label::Return { thread, value } => {
                &&& self.calls.contains_key(thread)
                &&& match self.calls[thread] {
                    Call::Pushed => value is None,
                    Call::Popped { result } => value == result,
                    _ => false,
                }
                &&& post == Atomic { calls: self.calls.remove(thread), ..self }
            },
        }
    }
}

} // verus!
