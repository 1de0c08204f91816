use vstd::prelude::*;

verus! {

/// Which projection the external camera model builds. Ray generation is a
/// pure closed-form function of pixel coordinates and lens parameters and
/// lives with the driving code; the core only consumes the rays.
#[derive(Clone, Copy, Debug, PartialEq, Eq, Structural)]
pub enum CameraType {
    Perspective,
    Orthographic,
}

} // verus!
