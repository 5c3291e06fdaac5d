use vstd::prelude::*;

verus! {

/// Why turning an image into stream data, or stream data into an image, failed.
#[derive(Clone, Copy, Debug, PartialEq, Eq, Structural)]
pub enum StreamError {
    /// The image could not be encoded as JPEG.
    Encode,
    /// The data could not be decoded as an image.
    Decode,
}

} // verus!
