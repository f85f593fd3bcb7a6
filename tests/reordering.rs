use wasm_splats::reorder::gather_by_order;
use wasm_splats::sort::radix_sort_depths;
use wasm_splats::splat_data::GSplatData;
use wasm_splats::validate::{InvalidArgument, SplatArray};

fn identity_view() -> Vec<f32> {
    vec![1.0, 0.0, 0.0, 0.0, 0.0, 1.0, 0.0, 0.0, 0.0, 0.0, 1.0, 0.0, 0.0, 0.0, 0.0, 1.0]
}

#[test]
fn gather_moves_whole_splats() {
    let data = vec![10, 11, 12, 20, 21, 22, 30, 31, 32];
    let order = vec![2, 0, 1];
    assert_eq!(gather_by_order(&data, 3, &order), vec![30, 31, 32, 10, 11, 12, 20, 21, 22]);
}

#[test]
fn reorder_matches_the_index_sort() {
    let positions: Vec<f32> = vec![0.0, 0.0, 0.0, 0.0, 0.0, -1.0, 0.0, 0.0, 1.0, 0.0, 0.0, -2.0];
    let scales: Vec<f32> = (0..12).map(|v| v as f32 * 0.5).collect();
    let rotations: Vec<f32> = (0..16).map(|v| v as f32).collect();
    let colors: Vec<u8> = (0..16).map(|v| v as u8 * 10).collect();
    let depths = vec![0, -4096, 4096, -8192];
    let mut data = GSplatData::from_vecs(
        positions.clone(),
        scales.clone(),
        rotations.clone(),
        colors.clone(),
        identity_view(),
        4,
    )
    .unwrap();
    assert_eq!(data.sort_and_reorder(&depths), Ok(()));
    let order = radix_sort_depths(&depths);
    assert_eq!(order, vec![3, 1, 0, 2]);
    for (i, &o) in order.iter().enumerate() {
        let o = o as usize;
        assert_eq!(data.positions()[i * 3..i * 3 + 3], positions[o * 3..o * 3 + 3]);
        assert_eq!(data.scales()[i * 3..i * 3 + 3], scales[o * 3..o * 3 + 3]);
        assert_eq!(data.rotations()[i * 4..i * 4 + 4], rotations[o * 4..o * 4 + 4]);
        assert_eq!(data.colors()[i * 4..i * 4 + 4], colors[o * 4..o * 4 + 4]);
    }
    assert_eq!(data.positions()[0..3], [0.0, 0.0, -2.0]);
    assert_eq!(*data.model_view(), identity_view());
    assert_eq!(data.count(), 4);
}

#[test]
fn from_vecs_reports_the_first_bad_array() {
    let r = GSplatData::from_vecs(
        vec![0.0f32; 9],
        vec![0.0f32; 3],
        vec![0.0f32; 2],
        vec![0u8; 1],
        identity_view(),
        4,
    );
    assert_eq!(
        r.err(),
        Some(InvalidArgument { array: SplatArray::Positions, expected: 12, actual: 9 })
    );
}

#[test]
fn sort_and_reorder_leaves_bad_data_alone() {
    let mut data = GSplatData::new(
        vec![1.0f32, 2.0, 3.0, 4.0, 5.0, 6.0],
        vec![0.0f32; 6],
        vec![0.0f32; 7],
        vec![0u8; 8],
        identity_view(),
        2,
    );
    assert_eq!(
        data.sort_and_reorder(&vec![5, -5]),
        Err(InvalidArgument { array: SplatArray::Rotations, expected: 8, actual: 7 })
    );
    assert_eq!(*data.positions(), vec![1.0f32, 2.0, 3.0, 4.0, 5.0, 6.0]);
    assert_eq!(data.check_lengths().is_err(), true);
}

#[test]
fn zero_splats_sort_to_nothing() {
    let mut data =
        GSplatData::from_vecs(vec![], vec![], vec![], vec![], identity_view(), 0).unwrap();
    assert_eq!(data.sort_and_reorder(&vec![]), Ok(()));
    assert!(data.positions().is_empty());
    assert!(data.colors().is_empty());
}
