use silk_engine::gfx::guillotine::{AdjRect, Guillotine};
use silk_engine::gfx::packer::Rect;

#[test]
fn guillotine_pack_cuts_and_fills() {
    let mut g = Guillotine::new(10, 10);
    assert_eq!((g.width(), g.height()), (10, 10));
    assert_eq!(g.pack(3, 4, &[0]), Some((0, 0)));
    assert_eq!(g.free_count(), 2);
    assert_eq!(g.free_rect(0).xywh(), (0, 4, 3, 6));
    assert_eq!(g.free_rect(1).xywh(), (3, 0, 7, 10));
    // The first free rectangle is too small, so the second, exactly the size, is taken.
    assert_eq!(g.pack(7, 10, &[5, 5]), Some((3, 0)));
    assert_eq!(g.free_count(), 1);
    assert_eq!(g.pack(5, 5, &[0]), None);
    g.reset();
    assert_eq!(g.free_count(), 1);
    assert_eq!(g.free_rect(0).xywh(), (0, 0, 10, 10));
}

#[test]
fn guillotine_pack_takes_first_lowest_score() {
    let mut g = Guillotine::new(10, 10);
    g.pack(3, 4, &[0]);
    // Both fit a 2 x 2; the lower score wins.
    assert_eq!(g.pack(2, 2, &[9, 1]), Some((3, 0)));
}

#[test]
fn guillotine_neighbours() {
    let mut g = Guillotine::new(10, 10);
    g.pack(3, 4, &[0]);
    let adj = g.find_adjacent(0, 0, 3, 4);
    assert_eq!(adj, [Some(AdjRect::North(0)), Some(AdjRect::EastLonger(1)), None, None]);
    assert_eq!(g.find_biggest_adjacent(0, 0, 3, 4), Some(AdjRect::North(0)));
    assert_eq!(AdjRect::EastLonger(1).idx(), 1);
    assert!(AdjRect::North(0).is_eq());
    assert!(!AdjRect::EastLonger(1).is_eq());
}

#[test]
fn guillotine_split_and_merge_shapes() {
    let (big, small) = Guillotine::split(10, 10, 0, 0, 3, 4);
    assert_eq!(big.xywh(), (3, 0, 7, 10));
    assert_eq!(small.xywh(), (0, 4, 3, 6));
    let (big, small) = Guillotine::split(10, 10, 0, 0, 8, 2);
    assert_eq!(big.xywh(), (0, 2, 10, 8));
    assert_eq!(small.xywh(), (8, 0, 2, 2));
    let (m, left) = Guillotine::merge_shapes(AdjRect::North(0), 0, 0, 3, 4, 3, 6);
    assert_eq!(m.xywh(), (0, 0, 3, 10));
    assert!(left.is_none());
    let (m, left) = Guillotine::merge_shapes(AdjRect::EastLonger(1), 0, 0, 3, 4, 7, 10);
    assert_eq!(m.xywh(), (0, 0, 10, 4));
    assert_eq!(left.unwrap().xywh(), (3, 4, 7, 6));
}

#[test]
fn guillotine_edit_free_rects() {
    let mut g = Guillotine::new(10, 10);
    g.set_free_rect(0, Rect::new(1, 1, 2, 2));
    g.push_free_rect(Rect::new(5, 5, 5, 5));
    assert_eq!(g.free_count(), 2);
    g.remove_free_rect(0);
    assert_eq!(g.free_count(), 1);
    assert_eq!(g.free_rect(0).xywh(), (5, 5, 5, 5));
    g.set_size(20, 12);
    assert_eq!((g.width(), g.height()), (20, 12));
}

fn overlaps(a: (u16, u16, u16, u16), b: (u16, u16, u16, u16)) -> bool {
    a.0 < b.0 + b.2 && b.0 < a.0 + a.2 && a.1 < b.1 + b.3 && b.1 < a.1 + a.3
}

#[test]
fn guillotine_placements_never_overlap() {
    let mut g = Guillotine::new(16, 16);
    let mut placed: Vec<(u16, u16, u16, u16)> = Vec::new();
    for &(w, h) in &[(5u16, 3u16), (4, 4), (7, 2), (3, 9), (6, 6), (2, 2), (1, 5)] {
        let scores = vec![0u32; g.free_count()];
        if let Some((x, y)) = g.pack(w, h, &scores) {
            assert!(x + w <= 16 && y + h <= 16);
            let q = (x, y, w, h);
            for &p in &placed {
                assert!(!overlaps(p, q));
            }
            for i in 0..g.free_count() {
                let f = g.free_rect(i).xywh();
                assert!(!overlaps(f, q));
                for &p in &placed {
                    assert!(!overlaps(f, p));
                }
            }
            placed.push(q);
        }
    }
    assert!(placed.len() >= 5);
}

#[test]
fn rects_are_equal_exactly_when_their_fields_are() {
    assert!(Rect::new(1, 2, 3, 4) == Rect::new(1, 2, 3, 4));
    assert!(Rect::new(1, 2, 3, 4) != Rect::new(1, 2, 4, 3));
    assert!(Rect::new(0, 0, 0, 1) != Rect::new(0, 1, 0, 0));
    assert_eq!(Rect::new(7, 8, 9, 10).packed_whxy(), (9u64 << 48) | (10u64 << 32) | (7u64 << 16) | 8);
}

#[test]
fn guillotine_merge_shapes_of_wide_rects() {
    let (m, left) = Guillotine::merge_shapes(AdjRect::North(1), 0, 0, 40000, 10, 40000, 20);
    assert_eq!(m.xywh(), (0, 0, 40000, 30));
    assert!(left.is_none());
    let (m, left) = Guillotine::merge_shapes(AdjRect::SouthShorter(1), 100, 50, 40000, 10, 30000, 20);
    assert_eq!(m.xywh(), (100, 30, 30000, 30));
    assert_eq!(left.unwrap().xywh(), (30100, 50, 10000, 10));
}

#[test]
fn guillotine_merge_equal_runs_until_an_unequal_neighbour() {
    let mut g = Guillotine::new(10, 10);
    g.set_free_rect(0, Rect::new(0, 0, 2, 10));
    g.push_free_rect(Rect::new(2, 0, 3, 10));
    g.push_free_rect(Rect::new(5, 0, 5, 10));
    let mut rm = Vec::new();
    assert_eq!(g.merge_equal(0, &mut rm), None);
    assert_eq!(rm, vec![1, 2]);
    assert_eq!(g.free_rect(0).xywh(), (0, 0, 10, 10));
    assert_eq!(g.free_count(), 3);

    let mut g = Guillotine::new(10, 10);
    g.set_free_rect(0, Rect::new(0, 0, 5, 10));
    g.push_free_rect(Rect::new(5, 0, 5, 4));
    let mut rm = Vec::new();
    assert_eq!(g.merge_equal(0, &mut rm), Some(AdjRect::EastShorter(1)));
    assert!(rm.is_empty());
    assert_eq!(g.free_rect(0).xywh(), (0, 0, 5, 10));
}

#[test]
fn guillotine_pack_order_is_by_area_largest_first() {
    use_order(&[(2, 2), (5, 1), (3, 3), (1, 4), (4, 1)], &[2, 1, 0, 3, 4]);
    use_order(&[], &[]);
}

fn use_order(rects: &[(u16, u16)], expected: &[usize]) {
    assert_eq!(silk_engine::gfx::guillotine::pack_order(rects), expected.to_vec());
}

#[test]
fn guillotine_merge_keeps_the_area() {
    for (a, x, y, w, h, fw, fh) in [
        (AdjRect::NorthShorter(1), 0u16, 0u16, 6u16, 4u16, 2u16, 3u16),
        (AdjRect::EastLonger(1), 0, 0, 6, 4, 2, 7),
        (AdjRect::WestShorter(1), 5, 0, 6, 4, 5, 2),
    ] {
        let (m, left) = Guillotine::merge_shapes(a, x, y, w, h, fw, fh);
        let (_, _, mw, mh) = m.xywh();
        let (_, _, lw, lh) = left.unwrap().xywh();
        assert_eq!(mw as u32 * mh as u32 + lw as u32 * lh as u32, w as u32 * h as u32 + fw as u32 * fh as u32);
    }
}
