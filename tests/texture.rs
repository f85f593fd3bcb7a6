use wasm_splats::models::TextureData;

#[test]
fn texture_keeps_its_texels_and_size() {
    let t = TextureData::new(vec![1, 2, 3, 4, 5, 6], 3, 2);
    assert_eq!(t.data(), vec![1, 2, 3, 4, 5, 6]);
    assert_eq!(t.data().len(), (t.width() * t.height()) as usize);
    assert_eq!(t.width(), 3);
    assert_eq!(t.height(), 2);
}

#[test]
fn empty_texture() {
    let t = TextureData::new(vec![], 2048, 0);
    assert!(t.data().is_empty());
    assert_eq!(t.width(), 2048);
    assert_eq!(t.height(), 0);
}
