use wasm_splats::validate::{
    check_length, check_sort_inputs, check_splat_inputs, InvalidArgument, SplatArray,
};

#[test]
fn sort_inputs_of_right_length_pass() {
    assert_eq!(check_sort_inputs(12, 16, 4), Ok(()));
    assert_eq!(check_sort_inputs(0, 16, 0), Ok(()));
}

#[test]
fn short_positions_are_reported() {
    assert_eq!(
        check_sort_inputs(9, 16, 4),
        Err(InvalidArgument { array: SplatArray::Positions, expected: 12, actual: 9 })
    );
}

#[test]
fn view_matrix_of_fifteen_or_seventeen_is_reported() {
    assert_eq!(
        check_sort_inputs(12, 15, 4),
        Err(InvalidArgument { array: SplatArray::ModelView, expected: 16, actual: 15 })
    );
    assert_eq!(
        check_sort_inputs(12, 17, 4),
        Err(InvalidArgument { array: SplatArray::ModelView, expected: 16, actual: 17 })
    );
}

#[test]
fn positions_are_reported_before_the_other_arrays() {
    let r = check_splat_inputs(9, 1, 2, 3, 15, 4);
    assert_eq!(r, Err(InvalidArgument { array: SplatArray::Positions, expected: 12, actual: 9 }));
    assert_eq!(r.unwrap_err().array.name(), "positions");
}

#[test]
fn each_attribute_array_is_checked() {
    assert_eq!(check_splat_inputs(6, 6, 8, 8, 16, 2), Ok(()));
    assert_eq!(
        check_splat_inputs(6, 7, 8, 8, 16, 2),
        Err(InvalidArgument { array: SplatArray::Scales, expected: 6, actual: 7 })
    );
    assert_eq!(
        check_splat_inputs(6, 6, 6, 8, 16, 2),
        Err(InvalidArgument { array: SplatArray::Rotations, expected: 8, actual: 6 })
    );
    assert_eq!(
        check_splat_inputs(6, 6, 8, 0, 16, 2),
        Err(InvalidArgument { array: SplatArray::Colors, expected: 8, actual: 0 })
    );
    assert_eq!(
        check_splat_inputs(6, 6, 8, 8, 4, 2),
        Err(InvalidArgument { array: SplatArray::ModelView, expected: 16, actual: 4 })
    );
}

#[test]
fn expected_length_does_not_wrap() {
    let r = check_length(SplatArray::Colors, 0, usize::MAX, 4);
    assert_eq!(
        r,
        Err(InvalidArgument {
            array: SplatArray::Colors,
            expected: usize::MAX as u128 * 4,
            actual: 0
        })
    );
}

#[test]
fn array_names() {
    assert_eq!(SplatArray::Scales.name(), "scales");
    assert_eq!(SplatArray::Rotations.name(), "rotations");
    assert_eq!(SplatArray::Colors.name(), "colors");
    assert_eq!(SplatArray::ModelView.name(), "model_view");
}
