//! Length checks on the host's flat splat arrays.
use vstd::prelude::*;

verus! {

/// Components per splat in the positions array.
pub const POSITION_STRIDE: usize = 3;

/// Components per splat in the scales array.
pub const SCALE_STRIDE: usize = 3;

/// Components per splat in the rotations array (a quaternion).
pub const ROTATION_STRIDE: usize = 4;

/// Components per splat in the colors array (RGBA bytes).
pub const COLOR_STRIDE: usize = 4;

/// Elements of a flattened 4x4 view matrix.
pub const MODEL_VIEW_LEN: usize = 16;

/// The input arrays of the kernel.
#[derive(Clone, Copy, Debug, PartialEq, Eq, Structural)]
pub enum SplatArray {
    Positions,
    Scales,
    Rotations,
    Colors,
    ModelView,
}

/// An input array whose length is not the one its splat count asks for.
#[derive(Clone, Copy, Debug, PartialEq, Eq, Structural)]
pub struct InvalidArgument {
    /// Which array is wrong.
    pub array: SplatArray,
    /// The length the array should have.
    pub expected: u128,
    /// The length it has.
    pub actual: usize,
}

impl SplatArray {
    /// A short lower-case name of the array.
    pub fn name(&self) -> (r: &'static str) {
        match self {
            SplatArray::Positions => "positions",
            SplatArray::Scales => "scales",
            SplatArray::Rotations => "rotations",
            SplatArray::Colors => "colors",
            SplatArray::ModelView => "model_view",
        }
    }
}

/// The error for `array`, of length `actual`, where `expected` elements were needed.
pub open spec fn length_error(array: SplatArray, expected: int, actual: usize) -> InvalidArgument {
    InvalidArgument { array, expected: expected as u128, actual }
}

/// The outcome of checking one array of length `actual` against `count * stride`.
pub open spec fn length_check(array: SplatArray, actual: usize, count: usize, stride: usize) -> Result<
    (),
    InvalidArgument,
> {
    if actual as int == count as int * stride as int {
        Ok(())
    } else {
        Err(length_error(array, count as int * stride as int, actual))
    }
}

/// The outcome of checking the inputs of an index sort: positions first, then the view matrix.
pub open spec fn sort_inputs_check(positions_len: usize, model_view_len: usize, count: usize) -> Result<
    (),
    InvalidArgument,
> {
    if length_check(SplatArray::Positions, positions_len, count, 3) is Err {
        length_check(SplatArray::Positions, positions_len, count, 3)
    } else {
        length_check(SplatArray::ModelView, model_view_len, 1, 16)
    }
}

/// The outcome of checking all the attribute arrays, in the order positions, scales,
/// rotations, colors, view matrix: the first array of wrong length is reported.
pub open spec fn splat_inputs_check(
    positions_len: usize,
    scales_len: usize,
    rotations_len: usize,
    colors_len: usize,
    model_view_len: usize,
    count: usize,
) -> Result<(), InvalidArgument> {
    if length_check(SplatArray::Positions, positions_len, count, 3) is Err {
        length_check(SplatArray::Positions, positions_len, count, 3)
    } else if length_check(SplatArray::Scales, scales_len, count, 3) is Err {
        length_check(SplatArray::Scales, scales_len, count, 3)
    } else if length_check(SplatArray::Rotations, rotations_len, count, 4) is Err {
        length_check(SplatArray::Rotations, rotations_len, count, 4)
    } else if length_check(SplatArray::Colors, colors_len, count, 4) is Err {
        length_check(SplatArray::Colors, colors_len, count, 4)
    } else {
        length_check(SplatArray::ModelView, model_view_len, 1, 16)
    }
}

/// Checks that an array of length `actual` holds `count` splats of `stride` components.
pub fn check_length(array: SplatArray, actual: usize, count: usize, stride: usize) -> (r: Result<
    (),
    InvalidArgument,
>)
    ensures
        r == length_check(array, actual, count, stride),
{
    assert(count as int * stride as int <= u128::MAX) by (nonlinear_arith)
        requires
            count <= u64::MAX,
            stride <= u64::MAX,
    ;
    let expected: u128 = count as u128 * stride as u128;
    if actual as u128 == expected {
        Ok(())
    } else {
        Err(InvalidArgument { array, expected, actual })
    }
}

/// Checks the inputs of an index sort: `count` positions and a 4x4 view matrix.
pub fn check_sort_inputs(positions_len: usize, model_view_len: usize, count: usize) -> (r: Result<
    (),
    InvalidArgument,
>)
    ensures
        r == sort_inputs_check(positions_len, model_view_len, count),
        r is Ok <==> positions_len == count * 3 && model_view_len == 16,
{
    check_length(SplatArray::Positions, positions_len, count, POSITION_STRIDE)?;
    check_length(SplatArray::ModelView, model_view_len, 1, MODEL_VIEW_LEN)
}

/// Checks every attribute array of `count` splats and the view matrix.
pub fn check_splat_inputs(
    positions_len: usize,
    scales_len: usize,
    rotations_len: usize,
    colors_len: usize,
    model_view_len: usize,
    count: usize,
) -> (r: Result<(), InvalidArgument>)
    ensures
        r == splat_inputs_check(
            positions_len,
            scales_len,
            rotations_len,
            colors_len,
            model_view_len,
            count,
        ),
        r is Ok <==> positions_len == count * 3 && scales_len == count * 3 && rotations_len
            == count * 4 && colors_len == count * 4 && model_view_len == 16,
{
    check_length(SplatArray::Positions, positions_len, count, POSITION_STRIDE)?;
    check_length(SplatArray::Scales, scales_len, count, SCALE_STRIDE)?;
    check_length(SplatArray::Rotations, rotations_len, count, ROTATION_STRIDE)?;
    check_length(SplatArray::Colors, colors_len, count, COLOR_STRIDE)?;
    check_length(SplatArray::ModelView, model_view_len, 1, MODEL_VIEW_LEN)
}

} // verus!
