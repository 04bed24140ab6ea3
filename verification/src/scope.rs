//! Guards that act when a scope ends.
use vstd::prelude::*;

verus! {

/// Temporarily assigns a value and restores the original when dropped,
/// unless told to keep the new value.
pub struct RevertGuard<'a, T> {
    target: &'a mut T,
    original: Option<T>,
}

impl<'a, T> RevertGuard<'a, T> {
    /// The value the target holds now.
    pub closed spec fn current_value(&self) -> T {
        *self.target
    }

    /// The value the target gets back when the guard is dropped, if any.
    pub closed spec fn original_value(&self) -> Option<T> {
        self.original
    }

    /// Puts `temporary` into `target` until the guard is dropped.
    pub fn new(target: &'a mut T, temporary: T) -> (r: Self)
        ensures
            r.current_value() == temporary,
            r.original_value() == Some(*old(target)),
    {
        let mut value = temporary;
        std::mem::swap(target, &mut value);
        RevertGuard { target, original: Some(value) }
    }

    /// The value the target holds now.
    pub fn current(&self) -> (r: &T)
        ensures
            *r == self.current_value(),
    {
        self.target
    }

    /// The target, for changing the temporary value.
    pub fn current_mut(&mut self) -> (r: &mut T)
        ensures
            *r == old(self).current_value(),
            final(self).current_value() == *final(r),
            final(self).original_value() == old(self).original_value(),
    {
        self.target
    }

    /// Keeps the current value: the original is not restored on drop. The
    /// guard, and with it the borrow of the target, ends here; what the
    /// target then holds is not something a contract of this function can
    /// speak of, since the guard's borrow is private.
    pub fn keep(self)
    {
        let mut guard = self;
        guard.original = None;
    }
}

impl<'a, T> Drop for RevertGuard<'a, T> {
    fn drop(&mut self)
        ensures
            final(self).current_value() == match old(self).original_value() {
                Some(value) => value,
                None => old(self).current_value(),
            },
        opens_invariants none
        no_unwind
    {
        let mut original: Option<T> = None;
        std::mem::swap(&mut original, &mut self.original);
        match original {
            Some(value) => {
                *self.target = value;
            },
            None => {},
        }
    }
}

} // verus!
