use vstd::prelude::*;
use crate::error::{Error, Result};
use crate::resolution::{
    face_pixel_count, grid_pixel_count, is_valid_face_resolution, lemma_resolution_bounds,
    valid_face_resolution,
};

verus! {

/// The pixel indices of a grid of resolution `n`, in enumeration order:
/// `0, 1, …, 12·n² − 1`.
pub open spec fn pixel_sequence(n: nat) -> Seq<u64> {
    Seq::new(grid_pixel_count(n), |i: int| i as u64)
}

/// Enumerating a grid gives each of its `12·n²` pixel indices exactly once,
/// in ascending order.
pub proof fn lemma_pixel_sequence(n: nat)
    requires
        valid_face_resolution(n),
    ensures
        pixel_sequence(n).len() == grid_pixel_count(n),
        pixel_sequence(n).no_duplicates(),
        forall|i: int| 0 <= i < grid_pixel_count(n) ==> #[trigger] pixel_sequence(n)[i] == i,
        forall|p: u64| p < grid_pixel_count(n) <==> pixel_sequence(n).contains(p),
{
    lemma_resolution_bounds(n);
    let s = pixel_sequence(n);
    assert forall|p: u64| p < grid_pixel_count(n) implies s.contains(p) by {
        assert(s[p as int] == p);
    }
}

/// A grid whose face resolution is chosen at run time.
pub struct DynamicHealpix {
    face_resolution: u32,
}

impl View for DynamicHealpix {
    /// The face resolution.
    type V = nat;

    closed spec fn view(&self) -> nat {
        self.face_resolution as nat
    }
}

impl DynamicHealpix {
    #[verifier::type_invariant]
    spec fn inv(&self) -> bool {
        valid_face_resolution(self.face_resolution as nat)
    }

    /// Builds a grid of the given face resolution, which must be a supported
    /// power of two.
    pub fn new(face_resolution: u32) -> (r: Result<DynamicHealpix>)
        ensures
            r is Ok <==> valid_face_resolution(face_resolution as nat),
            r is Err ==> r == Err::<DynamicHealpix, Error>(Error::InvalidFaceResolution),
            r matches Ok(h) ==> h@ == face_resolution,
    {
        if !is_valid_face_resolution(face_resolution) {
            return Err(Error::InvalidFaceResolution);
        }
        Ok(DynamicHealpix { face_resolution })
    }

    /// The number of pixels along one edge of a face.
    pub fn face_resolution(&self) -> (r: u32)
        ensures
            r == self@,
            valid_face_resolution(r as nat),
    {
        proof {
            use_type_invariant(self);
        }
        self.face_resolution
    }

    /// The number of pixels on one face.
    pub fn pixels_per_face(&self) -> (r: u64)
        ensures
            r == face_pixel_count(self@),
    {
        proof {
            use_type_invariant(self);
            lemma_resolution_bounds(self@);
        }
        self.face_resolution as u64 * self.face_resolution as u64
    }

    /// The number of pixels of the whole grid.
    pub fn total_pixels(&self) -> (r: u64)
        ensures
            r == grid_pixel_count(self@),
    {
        proof {
            use_type_invariant(self);
            lemma_resolution_bounds(self@);
        }
        12 * (self.face_resolution as u64 * self.face_resolution as u64)
    }

    /// The pixel indices of the grid, in ascending order.
    pub fn pixel_range(&self) -> (r: core::ops::Range<u64>)
        ensures
            r.start == 0,
            r.end == grid_pixel_count(self@),
            vstd::std_specs::iter::IteratorSpec::remaining(&r) == pixel_sequence(self@),
    {
        let r = 0..self.total_pixels();
        assert(vstd::std_specs::iter::IteratorSpec::remaining(&r) =~= pixel_sequence(self@));
        r
    }
}

/// A grid whose face resolution is fixed by its type.
pub struct ConstHealpix<const FACE_RESOLUTION: u32> {
    _private: (),
}

impl<const FACE_RESOLUTION: u32> ConstHealpix<FACE_RESOLUTION> {
    #[verifier::type_invariant]
    spec fn inv(&self) -> bool {
        valid_face_resolution(FACE_RESOLUTION as nat)
    }

    /// Builds the grid; its resolution must be a supported power of two.
    pub fn new() -> (r: Self)
        requires
            valid_face_resolution(FACE_RESOLUTION as nat),
    {
        ConstHealpix { _private: () }
    }

    /// The number of pixels along one edge of a face.
    pub fn face_resolution(&self) -> (r: u32)
        ensures
            r == FACE_RESOLUTION,
            valid_face_resolution(r as nat),
    {
        proof {
            use_type_invariant(self);
        }
        FACE_RESOLUTION
    }

    /// The number of pixels on one face.
    pub fn pixels_per_face(&self) -> (r: u64)
        ensures
            r == face_pixel_count(FACE_RESOLUTION as nat),
    {
        proof {
            use_type_invariant(self);
            lemma_resolution_bounds(FACE_RESOLUTION as nat);
        }
        FACE_RESOLUTION as u64 * FACE_RESOLUTION as u64
    }

    /// The number of pixels of the whole grid.
    pub fn total_pixels(&self) -> (r: u64)
        ensures
            r == grid_pixel_count(FACE_RESOLUTION as nat),
    {
        proof {
            use_type_invariant(self);
            lemma_resolution_bounds(FACE_RESOLUTION as nat);
        }
        12 * (FACE_RESOLUTION as u64 * FACE_RESOLUTION as u64)
    }

    /// The pixel indices of the grid, in ascending order.
    pub fn pixel_range(&self) -> (r: core::ops::Range<u64>)
        ensures
            r.start == 0,
            r.end == grid_pixel_count(FACE_RESOLUTION as nat),
            vstd::std_specs::iter::IteratorSpec::remaining(&r) == pixel_sequence(
                FACE_RESOLUTION as nat,
            ),
    {
        let r = 0..self.total_pixels();
        assert(vstd::std_specs::iter::IteratorSpec::remaining(&r) =~= pixel_sequence(
            FACE_RESOLUTION as nat,
        ));
        r
    }
}

} // verus!
