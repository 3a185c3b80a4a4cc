use vstd::prelude::*;

verus! {

/// What can go wrong when building a grid or converting a pixel.
#[derive(Debug, Clone, Copy, PartialEq, Eq, Structural)]
pub enum Error {
    /// The face resolution is not a supported power of two.
    InvalidFaceResolution,
    /// The pixel index is not below the grid's pixel count.
    InvalidPixel,
}

impl Error {
    /// A short human-readable description of the error.
    pub fn message(&self) -> (r: &'static str)
        ensures
            *self == Error::InvalidFaceResolution ==> r@ == "face resolution must be a power of two"@,
            *self == Error::InvalidPixel ==> r@ == "The pixel is out of bounds"@,
    {
        match self {
            Error::InvalidFaceResolution => "face resolution must be a power of two",
            Error::InvalidPixel => "The pixel is out of bounds",
        }
    }
}

/// The result type of this library's fallible operations.
pub type Result<T> = core::result::Result<T, Error>;

} // verus!
