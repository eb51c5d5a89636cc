use vstd::prelude::*;

verus! {

/// A function item, generic over a type it does not use: it ignores its
/// argument and returns zero.
pub fn bar<T>(x: u32) -> (r: u32)
    ensures
        r == 0,
{
    0
}

/// Calls a closure that needs nothing and returns nothing, exactly once.
///
/// Every `Fn()` closure is accepted. The bound is `FnOnce()` so that the
/// closure is moved into its one call: a second call does not compile, and
/// the `ensures` cannot be met without the call.
pub fn quox<F>(f: F)
    where F: FnOnce()
    requires
        f.requires(()),
    ensures
        f.ensures((), ()),
{
    (f)()
}

/// Calls a boxed one-shot closure.
pub fn hello<F: FnOnce()>(f: Box<F>)
    requires
        (*f).requires(()),
    ensures
        (*f).ensures((), ()),
{
    let g = *f;
    g()
}

} // verus!
