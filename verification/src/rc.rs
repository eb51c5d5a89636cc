use vstd::prelude::*;

verus! {

/// Trusted wrapper of `std::rc::Rc::clone`, which makes another pointer to
/// the same allocation: the clone points to a value equal to the one `rc`
/// points to.
/// Its effect on the reference count is not stated.
#[verifier::external_body]
fn clone_rc<T>(rc: &std::rc::Rc<T>) -> (res: std::rc::Rc<T>)
    ensures
        *res == **rc,
{
    std::rc::Rc::clone(rc)
}

/// A single-threaded reference-counted pointer: clones share one value, which
/// is dropped with the last of them.
///
/// The count of handles is kept by `std::rc::Rc`; the contracts here speak of
/// the shared value only, not of the count or of when the value is dropped.
pub struct Rc<T> {
    inner: std::rc::Rc<T>,
}

impl<T> Rc<T> {
    /// The value that the pointer shares.
    pub closed spec fn value(&self) -> T {
        *self.inner
    }

    pub fn new(v: T) -> (r: Self)
        ensures
            r.value() == v,
    {
        Rc { inner: std::rc::Rc::new(v) }
    }

    /// Another pointer to the same value.
    pub fn share(&self) -> (r: Self)
        ensures
            r.value() == self.value(),
    {
        Rc { inner: clone_rc(&self.inner) }
    }

    /// The shared value.
    pub fn get(&self) -> (r: &T)
        ensures
            *r == self.value(),
    {
        &*self.inner
    }
}

impl<T> Clone for Rc<T> {
    fn clone(&self) -> (r: Self)
        ensures
            r.value() == self.value(),
    {
        self.share()
    }
}

impl<T> std::ops::Deref for Rc<T> {
    type Target = T;

    fn deref(&self) -> (r: &T)
        ensures
            *r == self.value(),
    {
        self.get()
    }
}

} // verus!
