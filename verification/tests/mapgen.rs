use microstation::grid::IVec2;
use microstation::mapgen::{test_map_chunks, test_wall_positions};

#[test]
fn test_walls_in_spawn_order() {
    let w = test_wall_positions();
    assert_eq!(w.len(), 35);
    assert_eq!(&w[0..5], &[IVec2::new(0, 2), IVec2::new(1, 2), IVec2::new(2, 2), IVec2::new(3, 2), IVec2::new(4, 2)]);
    assert_eq!(&w[5..9], &[IVec2::new(0, 4), IVec2::new(0, 5), IVec2::new(0, 6), IVec2::new(0, 7)]);
    assert_eq!(&w[9..12], &[IVec2::new(1, 7), IVec2::new(2, 7), IVec2::new(3, 7)]);
    assert_eq!(&w[12..14], &[IVec2::new(6, 4), IVec2::new(6, 8)]);
    assert_eq!(&w[18..20], &[IVec2::new(9, 4), IVec2::new(9, 8)]);
    assert_eq!(&w[20..22], &[IVec2::new(6, 4), IVec2::new(9, 4)]);
    assert_eq!(&w[28..30], &[IVec2::new(6, 8), IVec2::new(9, 8)]);
    assert_eq!(&w[30..35], &[IVec2::new(0, 10), IVec2::new(1, 11), IVec2::new(0, 12), IVec2::new(1, 13), IVec2::new(0, 14)]);
}

#[test]
fn test_map_is_three_by_three_floor() {
    let chunks = test_map_chunks(4);
    assert_eq!(chunks.len(), 9);
    assert_eq!(chunks[0].crd, IVec2::new(0, 0));
    assert_eq!(chunks[1].crd, IVec2::new(1, 0));
    assert_eq!(chunks[3].crd, IVec2::new(0, 1));
    assert_eq!(chunks[8].crd, IVec2::new(2, 2));
    for c in &chunks {
        assert_eq!(c.tiles.len(), 256);
        assert!(c.tiles.iter().all(|&t| t == 4));
    }
}
