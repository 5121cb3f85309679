//! The camera: the size of the image it looks through.

use vstd::prelude::*;

verus! {

/// A camera at the world origin. It casts one ray through each pixel of an
/// image of `image_width` by `image_height` pixels.
pub struct CameraNode {
    pub name: String,
    pub image_width: usize,
    pub image_height: usize,
}

impl CameraNode {
    pub fn new(name: String, width: usize, height: usize) -> (camera: CameraNode)
        ensures
            camera == (CameraNode { name, image_width: width, image_height: height }),
    {
        CameraNode { name, image_width: width, image_height: height }
    }

    /// The image is small enough to be stored: both sides fit 32 bits and
    /// three bytes per pixel fit the address space.
    pub open spec fn storable(&self) -> bool {
        &&& self.image_width <= u32::MAX
        &&& self.image_height <= u32::MAX
        &&& 3 * self.image_width <= usize::MAX
        &&& 3 * self.image_width * self.image_height <= usize::MAX
    }
}

} // verus!
