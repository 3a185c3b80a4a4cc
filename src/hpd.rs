use vstd::prelude::*;

verus! {

/// A pixel given by its base face `f` and its coordinates `(x, y)` on that face.
#[derive(Debug, Clone, Copy, PartialEq, Eq, Structural)]
pub struct Hpd {
    pub x: i64,
    pub y: i64,
    pub f: i32,
}

impl Hpd {
    /// The face is one of the twelve and both coordinates lie on a face of
    /// resolution `n`.
    pub open spec fn wf(&self, n: int) -> bool {
        &&& 0 <= self.f < 12
        &&& 0 <= self.x < n
        &&& 0 <= self.y < n
    }
}

/// `v` moved into the coordinate range `[0, face_resolution)` of a face.
pub fn clamp_to_face(v: i64, face_resolution: u32) -> (r: u32)
    requires
        face_resolution >= 1,
    ensures
        r < face_resolution,
        v < 0 ==> r == 0,
        0 <= v < face_resolution ==> r == v,
        v >= face_resolution ==> r == face_resolution - 1,
{
    if v < 0 {
        0
    } else if v >= face_resolution as i64 {
        face_resolution - 1
    } else {
        v as u32
    }
}

} // verus!
