//! Landmark indices into the 468-point face mesh.
//!
//! Eyes are named from the *subject's* point of view: `RIGHT_EYE` is the eye on
//! the user's right, which appears on the left of a non-mirrored camera image.

use vstd::prelude::*;

verus! {

/// Right eye: outer corner, two upper lid points, inner corner, two lower.
pub const RIGHT_EYE: [usize; 6] = [33, 160, 158, 133, 153, 144];

/// Left eye, same ordering.
pub const LEFT_EYE: [usize; 6] = [362, 385, 387, 263, 373, 380];

} // verus!
