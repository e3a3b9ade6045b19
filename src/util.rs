//! A first-in, first-out event queue, and `Result`s whose two sides carry
//! the same type.

use vstd::prelude::*;
use std::collections::VecDeque;

verus! {

/// A first-in, first-out queue of events.
pub struct EventQueue<T> {
    events: VecDeque<T>,
}

impl<T> View for EventQueue<T> {
    type V = Seq<T>;

    closed spec fn view(&self) -> Seq<T> {
        self.events@
    }
}

impl<T> Default for EventQueue<T> {
    fn default() -> (r: Self)
        ensures
            r@ == Seq::<T>::empty(),
    {
        EventQueue { events: VecDeque::new() }
    }
}

impl<T> EventQueue<T> {
    /// Takes the oldest event, if any.
    pub fn poll(&mut self) -> (r: Option<T>)
        ensures
            old(self)@.len() == 0 ==> r is None && final(self)@ == old(self)@,
            old(self)@.len() > 0 ==> r == Some(old(self)@[0]) && final(self)@ == old(self)@.drop_first(),
    {
        self.events.pop_front()
    }

    /// Appends an event.
    pub fn new(&mut self, event: T)
        ensures
            final(self)@ == old(self)@.push(event),
    {
        self.events.push_back(event);
    }
}

/// A `Result` whose two sides carry the same type.
pub trait ResultExt<T>: Sized {
    /// The value on whichever side it is.
    spec fn spec_either(self) -> T;

    fn either(self) -> (r: T)
        ensures
            r == self.spec_either(),
    ;

    /// Applies `cb` to the value and keeps the side.
    fn map_either<U, F: FnOnce(T) -> U>(self, cb: F) -> (r: Result<U, U>)
        requires
            cb.requires((self.spec_either(),)),
        ensures
            r is Ok <==> self.spec_is_ok(),
            cb.ensures((self.spec_either(),), either_of(r)),
    ;

    spec fn spec_is_ok(self) -> bool;
}

/// The value on whichever side of `r` it is.
pub open spec fn either_of<U>(r: Result<U, U>) -> U {
    match r {
        Ok(a) => a,
        Err(b) => b,
    }
}

impl<T> ResultExt<T> for Result<T, T> {
    open spec fn spec_either(self) -> T {
        match self {
            Ok(a) => a,
            Err(b) => b,
        }
    }

    fn either(self) -> (r: T) {
        match self {
            Ok(a) => a,
            Err(b) => b,
        }
    }

    open spec fn spec_is_ok(self) -> bool {
        self is Ok
    }

    fn map_either<U, F: FnOnce(T) -> U>(self, cb: F) -> (r: Result<U, U>) {
        match self {
            Ok(a) => Ok(cb(a)),
            Err(b) => Err(cb(b)),
        }
    }
}

} // verus!
