use vstd::prelude::*;
use core::marker::PhantomData;

verus! {

/// A way of numbering the pixels of a grid. It tags pixel indices so that
/// indices of different numberings cannot be mixed up.
pub trait NumberingScheme {
}

/// A pixel index in the numbering `N`.
pub struct Pixel<N: NumberingScheme> {
    index: u64,
    scheme: PhantomData<N>,
}

impl<N: NumberingScheme> View for Pixel<N> {
    /// The raw index.
    type V = u64;

    closed spec fn view(&self) -> u64 {
        self.index
    }
}

impl<N: NumberingScheme> Pixel<N> {
    /// Wraps a raw index; it is checked only when converted back.
    pub fn from_u64(v: u64) -> (r: Self)
        ensures
            r@ == v,
    {
        Pixel { index: v, scheme: PhantomData }
    }

    /// The raw index.
    pub fn as_u64(&self) -> (r: u64)
        ensures
            r == self@,
    {
        self.index
    }
}

} // verus!
