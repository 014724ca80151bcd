use vstd::prelude::*;
use vstd::string::StringExecFns;

verus! {

/// Why a raster could not be built from the bytes it was given.
#[derive(Clone, Copy, Debug, PartialEq, Eq, Structural)]
pub enum Error {
    /// The bytes are not an image that the decoder accepts.
    Decode,
    /// The buffer does not hold exactly the pixels of the stated width and
    /// height, or the raster is too large to be addressed with 32 bits.
    Dimension,
}

impl Error {
    /// A short text for the error, for messages and logs.
    pub fn message(&self) -> (text: String)
        ensures
            text@ == (match *self {
                Error::Decode => "image data could not be decoded"@,
                Error::Dimension => "buffer length does not match the dimensions"@,
            }),
    {
        match self {
            Error::Decode => String::from_str("image data could not be decoded"),
            Error::Dimension => String::from_str("buffer length does not match the dimensions"),
        }
    }
}

} // verus!
