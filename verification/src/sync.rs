//! A cell that is initialized once, before it is used.
use vstd::prelude::*;

verus! {

/// A cell whose value is set once and read after that.
pub struct InitCell<T> {
    val: Option<T>,
}

impl<T> InitCell<T> {
    /// The value of the cell, once set.
    pub closed spec fn value(&self) -> Option<T> {
        self.val
    }

    /// An empty cell.
    pub fn new() -> (r: Self)
        ensures
            r.value().is_none(),
    {
        InitCell { val: None }
    }

    /// Sets the cell, which must be empty, to `val`, and returns it.
    pub fn init(&mut self, val: T) -> (r: &T)
        requires
            old(self).value().is_none(),
        ensures
            final(self).value() == Some(val),
    {
        self.val = Some(val);
        match &self.val {
            Some(v) => v,
            None => vstd::pervasive::unreached(),
        }
    }

    /// Returns the value of the cell, which must be set.
    pub fn get(&self) -> (r: &T)
        requires
            self.value().is_some(),
        ensures
            *r == self.value().unwrap(),
    {
        match &self.val {
            Some(v) => v,
            None => vstd::pervasive::unreached(),
        }
    }
}

} // verus!
