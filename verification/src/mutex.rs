use vstd::prelude::*;
use vstd::rwlock::{RwLock, RwLockPredicate};

verus! {

/// A lock's predicate that admits any value of its type.
pub struct AnyValue;

impl<T> RwLockPredicate<T> for AnyValue {
    open spec fn inv(self, v: T) -> bool {
        true
    }
}

/// A lock that hands out exclusive access to the value it protects, one
/// caller at a time, from any number of threads.
///
/// The predicate `P` is what every value the lock holds satisfies: the value
/// it is made with, and every value a caller puts back.
pub struct Mutex<T, P: RwLockPredicate<T>> {
    lock: RwLock<T, P>,
}

impl<T, P: RwLockPredicate<T>> Mutex<T, P> {
    /// The predicate that the protected value always satisfies.
    pub closed spec fn pred(&self) -> P {
        self.lock.pred()
    }

    /// A lock protecting `t`, not held by anyone; `p` is the predicate that
    /// the protected value keeps.
    pub fn new(t: T, p: P) -> (m: Self)
        requires
            p.inv(t),
        ensures
            m.pred() == p,
    {
        Mutex { lock: RwLock::new(t, Ghost(p)) }
    }

    /// Waits until the lock is free, takes it, runs `f` on the protected
    /// value and releases the lock.
    ///
    /// `f` sees a value that satisfies the lock's predicate and must leave
    /// one that does. Other threads may change the value between two calls,
    /// so beyond the predicate only `f`'s own contract relates what it sees
    /// to what it returns.
    pub fn with_lock<R, F: FnOnce(&mut T) -> R>(&self, f: F) -> (r: R)
        requires
            forall|v: &mut T| self.pred().inv(*v) ==> #[trigger] f.requires((v,)),
            forall|v: &mut T, s: R|
                self.pred().inv(*v) && #[trigger] f.ensures((v,), s) ==> self.pred().inv(*final(v)),
        ensures
            exists|v: &mut T| self.pred().inv(*v) && #[trigger] f.ensures((v,), r),
    {
        let (mut v, handle) = self.lock.acquire_write();
        assert(self.pred().inv(v));
        let v_ref = &mut v;
        assert(self.pred().inv(*v_ref));
        let r = f(v_ref);
        handle.release_write(v);
        r
    }
}

} // verus!
