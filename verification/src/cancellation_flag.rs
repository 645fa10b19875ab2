//! Cooperative cancellation: a flag the solver polls while another thread may
//! raise it.
use std::sync::atomic::AtomicBool;
use std::sync::atomic::Ordering;
use vstd::prelude::*;

verus! {

/// A readable cancellation signal.
///
/// `spec_const` names what the flag is known to answer: `Some(b)` for the
/// compile-time constant flags, `None` when the answer may change between
/// polls, as for the atomic flag.
pub trait CancellationFlag {
    spec fn spec_const(&self) -> Option<bool>;

    fn cancelled(&self) -> (r: bool)
        ensures
            (match self.spec_const() {
                Some(b) => r == b,
                None => true,
            }),
    ;
}

/// A compile-time constant flag, for tests and for searches nobody interrupts.
#[derive(Debug)]
pub struct Const<const CANCELLED: bool>;

impl<const CANCELLED: bool> Const<CANCELLED> {
    pub fn new() -> (r: Self)
        ensures
            r.spec_const() == Some(CANCELLED),
    {
        Const
    }
}

impl<const CANCELLED: bool> CancellationFlag for Const<CANCELLED> {
    open spec fn spec_const(&self) -> Option<bool> {
        Some(CANCELLED)
    }

    fn cancelled(&self) -> (r: bool) {
        CANCELLED
    }
}

/// A flag that always reports cancellation.
pub type AlreadyCancelled = Const<true>;

/// A flag that never reports cancellation.
pub type NeverCancelled = Const<false>;

/// A flag shared between the solver and a canceller on another thread.
#[derive(Debug)]
pub struct Atomic {
    flag: AtomicBool,
}

impl Atomic {
    pub fn new(cancelled: bool) -> (r: Self)
        ensures
            r.spec_const() is None,
    {
        Atomic { flag: AtomicBool::new(cancelled) }
    }

    /// Raises the flag; every later poll that observes the store reports it.
    pub fn cancel(&self) {
        self.flag.store(true, Ordering::Release);
    }
}

impl CancellationFlag for Atomic {
    open spec fn spec_const(&self) -> Option<bool> {
        None
    }

    fn cancelled(&self) -> (r: bool) {
        self.flag.load(Ordering::Acquire)
    }
}

} // verus!
