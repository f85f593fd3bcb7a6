//! Per-frame data preparation for a Gaussian-splat renderer: ordering splats by
//! view-space depth with a stable byte-wise radix sort, reordering their attribute
//! arrays into that order, checking the lengths of the host's arrays, and the texture
//! buffer type handed to the renderer.
use vstd::prelude::*;

pub mod models;
pub mod radix;
pub mod reorder;
pub mod sort;
pub mod splat_data;
pub mod validate;

verus! {

} // verus!
