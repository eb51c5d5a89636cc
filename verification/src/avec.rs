use vstd::prelude::*;

verus! {

/// Moves the elements of an array into a new vector, through std's
/// `From<[T; N]>` impl for `Vec<T>`. The contract claims what std documents
/// of it: the vector holds the array's elements, in the same order.
#[verifier::external_body]
fn vec_from_array<T, const N: usize>(elements: [T; N]) -> (vs: Vec<T>)
    ensures
        vs@ == elements@,
{
    Vec::from(elements)
}

/// A vector of the given elements, in order.
pub fn avec_from<T, const N: usize>(elements: [T; N]) -> (vs: Vec<T>)
    ensures
        vs@ == elements@,
{
    vec_from_array(elements)
}

/// A vector holding `count` clones of `element`; `element` is evaluated once
/// by the caller and cloned into every slot.
pub fn avec_repeat<T: Clone>(element: T, count: usize) -> (vs: Vec<T>)
    ensures
        vs@.len() == count,
        forall|i: int| 0 <= i < count ==> cloned::<T>(element, #[trigger] vs@[i]),
{
    let mut vs: Vec<T> = Vec::new();
    vs.resize(count, element);
    vs
}

/// The empty vector.
pub fn avec_empty<T>() -> (vs: Vec<T>)
    ensures
        vs@ == Seq::<T>::empty(),
{
    Vec::with_capacity(0)
}

/// Builds a vector with `avec_empty` and checks, once and for all, that it
/// is empty.
pub fn empty_vec() {
    let x: Vec<u32> = avec_empty();
    assert(x@.len() == 0);
}

/// A type with a greatest value.
pub trait MaxValue: Sized {
    spec fn spec_max_value() -> Self;

    fn max_value() -> (m: Self)
        ensures
            m == Self::spec_max_value(),
    ;
}

impl MaxValue for u32 {
    open spec fn spec_max_value() -> u32 {
        u32::MAX
    }

    fn max_value() -> (m: u32) {
        u32::MAX
    }
}

impl MaxValue for i32 {
    open spec fn spec_max_value() -> i32 {
        i32::MAX
    }

    fn max_value() -> (m: i32) {
        i32::MAX
    }
}

impl MaxValue for i64 {
    open spec fn spec_max_value() -> i64 {
        i64::MAX
    }

    fn max_value() -> (m: i64) {
        i64::MAX
    }
}

impl MaxValue for u64 {
    open spec fn spec_max_value() -> u64 {
        u64::MAX
    }

    fn max_value() -> (m: u64) {
        u64::MAX
    }
}

} // verus!
