//! A vector whose length is part of its type.

use vstd::prelude::*;

verus! {

/// A vector of exactly `LENGTH` elements.
pub struct MyVec<T: Sized, const LENGTH: usize> {
    inner_data: [T; LENGTH],
}

impl<T: Copy, const L: usize> MyVec<T, L> {
    /// The elements, in their order.
    pub closed spec fn view(&self) -> Seq<T> {
        self.inner_data@
    }

    /// A vector that holds `value` at each of its `L` places.
    pub fn new(value: T) -> (filled: Self)
        ensures
            filled@ == Seq::new(L as nat, |i: int| value),
    {
        let filled = MyVec { inner_data: [value;L] };
        assert(filled@ =~= Seq::new(L as nat, |i: int| value));
        filled
    }

    /// The element at place `i`.
    pub fn get(&self, i: usize) -> (value: T)
        requires
            i < L,
        ensures
            value == self@[i as int],
    {
        self.inner_data[i]
    }
}

} // verus!
