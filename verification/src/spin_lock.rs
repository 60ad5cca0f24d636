//! A lock that guards one value and hands it out through a guard.
//!
//! The lock is held from `lock` until the guard goes back through `unlock`.
//! A lock that is held cannot be taken again: a second `lock` would wait for
//! ever, so its caller has to show that the lock is free. Every call of an
//! allocator under a lock takes the lock once, does its work through the
//! guard and gives the lock back.
//!
//! This lock is the rule of taking and giving back for one holder at a
//! time, which the borrow of the lock enforces. It has no atomic flag and
//! is not shared between threads.

use vstd::prelude::*;

verus! {

/// A value together with the flag that says whether it is handed out.
pub struct SpinLock<T> {
    locked: bool,
    value: T,
}

/// Access to the value of the lock that it was taken from.
pub struct Guard<'a, T> {
    pub lock: &'a mut SpinLock<T>,
}

impl<T> SpinLock<T> {
    /// Whether a guard for this lock is out.
    pub closed spec fn is_locked(&self) -> bool {
        self.locked
    }

    /// The guarded value.
    pub closed spec fn value(&self) -> T {
        self.value
    }

    /// A free lock around `value`.
    pub fn new(value: T) -> (lock: Self)
        ensures
            !lock.is_locked(),
            lock.value() == value,
    {
        SpinLock { locked: false, value }
    }

    /// Takes the lock. Until the guard is given back the lock is held, and
    /// what the guard's holder did to the value is what the lock holds after.
    pub fn lock(&mut self) -> (guard: Guard<'_, T>)
        requires
            !old(self).is_locked(),
        ensures
            guard.lock.is_locked(),
            guard.lock.value() == old(self).value(),
            *final(self) == *final(guard.lock),
    {
        self.locked = true;
        Guard { lock: self }
    }

    /// Gives the guard back: the lock is free again and keeps the value as
    /// the guard left it.
    pub fn unlock(guard: Guard<'_, T>)
        ensures
            !final(guard.lock).is_locked(),
            final(guard.lock).value() == old(guard.lock).value(),
    {
        let Guard { lock } = guard;
        lock.locked = false;
    }
}

impl<'a, T> Guard<'a, T> {
    /// The guarded value.
    pub fn get(&self) -> (value: &T)
        ensures
            *value == old(self.lock).value(),
    {
        &self.lock.value
    }

    /// The guarded value, to be changed in place. The lock stays held.
    pub fn get_mut(&mut self) -> (value: &mut T)
        ensures
            *value == old(self).lock.value(),
            final(self).lock.value() == *final(value),
            final(self).lock.is_locked() == old(self).lock.is_locked(),
            *final(final(self).lock) == *final(old(self).lock),
    {
        &mut self.lock.value
    }
}

} // verus!
