use microstation::grid::IVec2;
use microstation::walls::{wall_corners, WallCorner, WallLayout, MASK_E, MASK_N, MASK_S, MASK_W};

#[test]
fn masks_follow_neighbours() {
    let mut w = WallLayout::new();
    w.on_wall_added(1, IVec2::new(0, 0), 0);
    w.on_wall_added(2, IVec2::new(1, 0), 0);
    w.on_wall_added(3, IVec2::new(0, 1), 0);
    assert_eq!(w.mask_of(1), Some(MASK_E | MASK_N));
    assert_eq!(w.mask_of(2), Some(MASK_W));
    assert_eq!(w.mask_of(3), Some(MASK_S));
    assert_eq!(w.wall_at(IVec2::new(1, 0)), Some(2));
    assert_eq!(w.wall_at(IVec2::new(5, 5)), None);
}

#[test]
fn removing_a_wall_clears_neighbour_bits() {
    let mut w = WallLayout::new();
    w.on_wall_added(1, IVec2::new(0, 0), 0);
    w.on_wall_added(2, IVec2::new(1, 0), 0);
    w.on_wall_added(3, IVec2::new(-1, 0), 0);
    assert_eq!(w.mask_of(1), Some(MASK_E | MASK_W));
    w.on_wall_removed(2, IVec2::new(1, 0));
    assert_eq!(w.mask_of(1), Some(MASK_W));
    assert_eq!(w.mask_of(2), None);
    assert_eq!(w.mask_of(3), Some(MASK_E));
    assert_eq!(w.wall_at(IVec2::new(1, 0)), None);
}

#[test]
fn surrounded_wall_has_all_bits() {
    let mut w = WallLayout::new();
    w.on_wall_added(10, IVec2::new(5, 5), 0);
    w.on_wall_added(11, IVec2::new(4, 5), 0);
    w.on_wall_added(12, IVec2::new(6, 5), 0);
    w.on_wall_added(13, IVec2::new(5, 4), 0);
    w.on_wall_added(14, IVec2::new(5, 6), 0);
    assert_eq!(w.mask_of(10), Some(MASK_W | MASK_E | MASK_S | MASK_N));
    assert_eq!(w.mask_of(13), Some(MASK_N));
}

#[test]
fn initial_mask_is_kept() {
    let mut w = WallLayout::new();
    w.on_wall_added(7, IVec2::new(0, 0), MASK_S);
    assert_eq!(w.mask_of(7), Some(MASK_S));
}

#[test]
fn lone_wall_corners() {
    let c = wall_corners(0);
    assert_eq!(c.len(), 4);
    assert_eq!(c[0], WallCorner { index: 0, turns: 0, flip_x: true, flip_y: false, offset_x: 8, offset_y: 8 });
    assert_eq!(c[1], WallCorner { index: 0, turns: 0, flip_x: false, flip_y: false, offset_x: -8, offset_y: 8 });
    assert_eq!(c[2], WallCorner { index: 0, turns: 0, flip_x: true, flip_y: true, offset_x: 8, offset_y: -8 });
    assert_eq!(c[3], WallCorner { index: 0, turns: 0, flip_x: false, flip_y: true, offset_x: -8, offset_y: -8 });
}

#[test]
fn corners_of_a_north_east_wall() {
    let c = wall_corners(MASK_N | MASK_E);
    // north-east corner: both sides
    assert_eq!((c[0].index, c[0].turns), (2, 0));
    // north-west corner: only the north side, turned a quarter, flips swapped
    assert_eq!((c[1].index, c[1].turns, c[1].flip_x, c[1].flip_y), (1, 1, false, false));
    // south-east corner: only the east side
    assert_eq!((c[2].index, c[2].turns, c[2].flip_x, c[2].flip_y), (1, 0, true, true));
    // south-west corner: nothing
    assert_eq!((c[3].index, c[3].turns), (0, 0));
}

#[test]
fn vertical_only_corner_swaps_flips() {
    let c = wall_corners(MASK_S);
    assert_eq!((c[2].index, c[2].turns, c[2].flip_x, c[2].flip_y), (1, 1, true, true));
    assert_eq!((c[3].index, c[3].turns, c[3].flip_x, c[3].flip_y), (1, 1, true, false));
    let _ = MASK_W;
}

#[test]
fn adding_then_removing_a_wall_restores_the_others() {
    let mut w = WallLayout::new();
    w.on_wall_added(1, IVec2::new(0, 0), 0);
    w.on_wall_added(2, IVec2::new(2, 0), 0);
    w.on_wall_added(3, IVec2::new(1, 1), 0);
    w.on_wall_added(4, IVec2::new(5, 5), 0);
    let before: Vec<Option<u8>> = (1..=4).map(|e| w.mask_of(e)).collect();
    w.on_wall_added(9, IVec2::new(1, 0), MASK_S);
    assert_eq!(w.mask_of(9), Some(MASK_S | MASK_W | MASK_E | MASK_N));
    assert_eq!(w.mask_of(1), Some(MASK_E));
    w.on_wall_removed(9, IVec2::new(1, 0));
    let after: Vec<Option<u8>> = (1..=4).map(|e| w.mask_of(e)).collect();
    assert_eq!(before, after);
    assert_eq!(w.mask_of(9), None);
    assert_eq!(w.wall_at(IVec2::new(1, 0)), None);
}
