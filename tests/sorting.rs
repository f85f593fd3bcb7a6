use wasm_splats::radix::radix_sort_keys;
use wasm_splats::sort::{bias_depths, radix_sort_depths};

fn assert_stable_ascending(depths: &[i32], order: &[u32]) {
    assert_eq!(order.len(), depths.len());
    let mut seen = vec![false; depths.len()];
    for &i in order {
        assert!(!seen[i as usize]);
        seen[i as usize] = true;
    }
    for w in order.windows(2) {
        let (a, b) = (w[0] as usize, w[1] as usize);
        assert!(depths[a] <= depths[b]);
        if depths[a] == depths[b] {
            assert!(a < b);
        }
    }
}

#[test]
fn four_splats_along_z_sort_nearest_key_first() {
    // positions (0,0,0), (0,0,-1), (0,0,1), (0,0,-2) under the identity view, scaled by 4096
    let depths = vec![0, -4096, 4096, -8192];
    assert_eq!(radix_sort_depths(&depths), vec![3, 1, 0, 2]);
}

#[test]
fn empty_input_gives_empty_order() {
    let depths: Vec<i32> = vec![];
    assert_eq!(radix_sort_depths(&depths), Vec::<u32>::new());
    assert_eq!(bias_depths(&depths), Vec::<u32>::new());
}

#[test]
fn single_splat() {
    assert_eq!(radix_sort_depths(&vec![-77]), vec![0]);
}

#[test]
fn order_is_a_stable_ascending_permutation() {
    let depths = vec![
        300, -2, 300, 70000, -70000, 5, 5, -2, 16777216, -16777216, 0, 300, 255, 256, 65535,
        65536, 5,
    ];
    let order = radix_sort_depths(&depths);
    assert_stable_ascending(&depths, &order);
    assert_eq!(order[0], 9);
    assert_eq!(order[1], 4);
    assert_eq!(order[2], 1);
    assert_eq!(order[3], 7);
    assert_eq!(*order.last().unwrap(), 8);
}

#[test]
fn equal_keys_keep_input_order() {
    let depths = vec![7, 7, 7, 7, 7];
    assert_eq!(radix_sort_depths(&depths), vec![0, 1, 2, 3, 4]);
    let depths = vec![2, 1, 2, 1, 2];
    assert_eq!(radix_sort_depths(&depths), vec![1, 3, 0, 2, 4]);
}

#[test]
fn ascending_input_gives_identity() {
    let depths = vec![-9000, -9000, -1, 0, 0, 3, 256, 65536, 1 << 24, i32::MAX];
    let order = radix_sort_depths(&depths);
    let identity: Vec<u32> = (0..depths.len() as u32).collect();
    assert_eq!(order, identity);
}

#[test]
fn sorting_the_sorted_keys_again_gives_identity() {
    let depths = vec![40, -3, 12, 12, -3, 1000000, -1000000];
    let order = radix_sort_depths(&depths);
    let sorted: Vec<i32> = order.iter().map(|&i| depths[i as usize]).collect();
    let again = radix_sort_depths(&sorted);
    let identity: Vec<u32> = (0..depths.len() as u32).collect();
    assert_eq!(again, identity);
}

#[test]
fn extreme_keys_span_the_whole_range() {
    let depths = vec![i32::MAX, i32::MIN, 0, -1, 1, i32::MIN, i32::MAX];
    assert_eq!(radix_sort_depths(&depths), vec![1, 5, 3, 2, 4, 0, 6]);
    assert_eq!(
        bias_depths(&depths),
        vec![u32::MAX, 0, 1 << 31, (1 << 31) - 1, (1 << 31) + 1, 0, u32::MAX]
    );
}

#[test]
fn bias_shifts_by_minus_the_minimum() {
    assert_eq!(bias_depths(&vec![5, -3, 10]), vec![8, 0, 13]);
    assert_eq!(bias_depths(&vec![4, 4]), vec![0, 0]);
}

#[test]
fn unsigned_keys_sort_on_every_byte() {
    let keys: Vec<u32> = vec![0x0100_0000, 0x0000_0001, 0xff00_0000, 0x0001_0000, 0x0000_0100, 0x0000_0001];
    assert_eq!(radix_sort_keys(keys), vec![1, 5, 4, 3, 0, 2]);
}

#[test]
fn many_keys_against_a_reference_sort() {
    let mut depths = Vec::new();
    let mut x: u32 = 12345;
    for _ in 0..2000 {
        x = x.wrapping_mul(1103515245).wrapping_add(12345);
        depths.push((x >> 7) as i32 % 5000 - 2500);
    }
    let order = radix_sort_depths(&depths);
    let mut expected: Vec<u32> = (0..depths.len() as u32).collect();
    expected.sort_by_key(|&i| depths[i as usize]);
    assert_eq!(order, expected);
}
