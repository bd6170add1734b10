//! A single-value cell whose contents can be replaced through a shared
//! reference, confined to one thread.
use std::marker::PhantomData;
use std::rc::Rc;
use vstd::cell::invcell::InvCell;
use vstd::predicate::Predicate;
use vstd::prelude::*;

verus! {

/// The invariant of a [`Cell`]'s contents: every value is allowed.
struct AnyValue;

impl<T> Predicate<T> for AnyValue {
    open spec fn predicate(&self, v: T) -> bool {
        true
    }
}

/// Holds one value that `set` replaces and `get` copies out, both through
/// `&self`.
///
/// Since the contents change behind shared references, a contract cannot name
/// the value a later `get` returns: to the verifier every read yields some
/// value of `T`.  The cell is neither `Send` nor `Sync`, so every reference
/// to it stays on the thread that made it.
pub struct Cell<T> {
    value: InvCell<T, AnyValue>,
    confined: PhantomData<Rc<()>>,
}

impl<T: Clone> Cell<T> {
    /// Wraps `value`.
    pub fn new(value: T) -> (r: Self) {
        Cell { value: InvCell::new(value, Ghost(AnyValue)), confined: PhantomData }
    }

    /// Replaces the held value by `value`.
    pub fn set(&self, value: T) {
        self.value.set(value);
    }

    /// Returns a copy of the held value.
    pub fn get(&self) -> (r: T)
        where
            T: Copy,
    {
        self.value.get()
    }
}

} // verus!
