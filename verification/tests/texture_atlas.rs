use silk_engine::gfx::texture_atlas::TextureAtlas;

fn zero_scores(a: &TextureAtlas) -> Vec<u32> {
    vec![0; a.packer().free_count()]
}

#[test]
fn texture_atlas_places_images_and_their_staging_bytes() {
    let mut a = TextureAtlas::new();
    assert_eq!(a.size(), (4096, 4096));
    assert!(!a.contains_img("a"));
    let s = zero_scores(&a);
    let (off, rect) = a.add_img("a", 10, 20, &s).unwrap();
    assert_eq!(off, 0);
    assert_eq!(rect.xywh(), (0, 0, 10, 20));
    assert!(a.contains_img("a"));
    assert!(!a.contains_img("b"));
    let s = zero_scores(&a);
    let (off, rect) = a.add_img("b", 5, 5, &s).unwrap();
    assert_eq!(off, 800);
    assert_eq!(rect.wh(), (5, 5));
    assert_eq!(a.img_data("a"), (0, 10, 20));
    assert_eq!(a.img_data("b").0, 800);
    assert_eq!(a.img_tex_coord("a"), [10 * 65536 + 20, 0]);
    let (x, y, _, _) = rect.xywh();
    assert_eq!(a.img_tex_coord("b"), [5 * 65536 + 5, x as u32 * 65536 + y as u32]);
}

#[test]
fn texture_atlas_whole_and_empty_coords() {
    let mut a = TextureAtlas::new();
    assert_eq!(a.atlas_tex_coord(), [4096 * 65536 + 4096, 0]);
    assert_eq!(a.no_img_tex_coord(), [0, 0]);
}

#[test]
fn texture_atlas_refuses_what_does_not_fit() {
    let mut a = TextureAtlas::new();
    let s = zero_scores(&a);
    assert!(a.add_img("wide", 4096, 4096, &s).is_some());
    let s = zero_scores(&a);
    assert!(s.is_empty());
    assert!(a.add_img("more", 1, 1, &s).is_none());
    assert!(!a.contains_img("more"));
}
