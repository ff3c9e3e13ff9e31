use vstd::prelude::*;

verus! {

/// A lock a process may hold while it sleeps. A process that finds it held
/// sleeps on the lock's channel and tries again when woken.
pub struct SleepLockSafe<T> {
    pub locked: bool,
    pub data: T,
}

/// What taking a lock in state `locked` does: the lock is held afterwards,
/// and the caller got it exactly when it was free.
pub open spec fn lock_effect(locked: bool) -> (bool, bool) {
    (true, !locked)
}

/// Proof that the lock was taken: the holder uses the data through the lock
/// until it calls `unlock`.
pub struct SleepLockGuard {
    pub held: bool,
}

impl<T> SleepLockSafe<T> {
    pub fn new(data: T) -> (r: Self)
        ensures
            !r.locked,
            r.data == data,
    {
        SleepLockSafe { locked: false, data }
    }

    /// Try to take the lock: it is taken when it was free; otherwise the
    /// caller sleeps on the lock and tries again.
    pub fn lock(&mut self) -> (r: Option<SleepLockGuard>)
        ensures
            final(self).data == old(self).data,
            final(self).locked,
            r is Some <==> !old(self).locked,
            (final(self).locked, r is Some) == lock_effect(old(self).locked),
            r matches Some(g) ==> g.held,
    {
        if self.locked {
            None
        } else {
            self.locked = true;
            Some(SleepLockGuard { held: true })
        }
    }

    /// Release the lock, which the caller holds (it has the guard `lock`
    /// gave); the caller then wakes the processes sleeping on it.
    pub fn unlock(&mut self, guard: SleepLockGuard)
        requires
            old(self).locked,
            guard.held,
        ensures
            final(self).data == old(self).data,
            !final(self).locked,
    {
        self.locked = false;
    }

    /// The data, for an owner with exclusive access to the lock.
    pub fn get_mut(&mut self) -> (r: &mut T)
        ensures
            *r == old(self).data,
            final(self).data == *final(r),
            final(self).locked == old(self).locked,
    {
        &mut self.data
    }
}

/// A sleep lock is held by one owner at a time: once a `lock` has
/// succeeded, every further `lock` fails until an `unlock`, after which the
/// next `lock` succeeds.
pub proof fn law_sleeplock_exclusive(locked: bool)
    requires
        lock_effect(locked).1,
    ensures
        !lock_effect(lock_effect(locked).0).1,
        lock_effect(lock_effect(locked).0).0,
        lock_effect(false).1,
{
}

}
