use microstation::grid::{pos_key, tile_world_pos, xy_chunk, xy_index_chunk, IVec2, CHUNK_TILES_COUNT};

#[test]
fn chunk_of_positive_position() {
    assert_eq!(xy_chunk(IVec2::new(17, 3)), IVec2::new(1, 0));
    assert_eq!(xy_index_chunk(IVec2::new(17, 3)), 3 * 16 + 1);
}

#[test]
fn chunk_of_negative_position_rounds_down() {
    assert_eq!(xy_chunk(IVec2::new(-1, -1)), IVec2::new(-1, -1));
    assert_eq!(xy_index_chunk(IVec2::new(-1, -1)), 255);
    assert_eq!(xy_chunk(IVec2::new(-16, -17)), IVec2::new(-1, -2));
    assert_eq!(xy_index_chunk(IVec2::new(-16, -17)), 15 * 16);
}

#[test]
fn chunk_round_trip() {
    for &(x, y) in &[(0, 0), (15, 15), (16, 0), (-1, 5), (-33, -70), (1000, -1000)] {
        let p = IVec2::new(x, y);
        let c = xy_chunk(p);
        let i = xy_index_chunk(p);
        assert!(i < CHUNK_TILES_COUNT);
        assert_eq!(tile_world_pos(c, i), p);
    }
}

#[test]
fn keys_tell_positions_apart() {
    let a = pos_key(IVec2::new(1, 2));
    let b = pos_key(IVec2::new(2, 1));
    let c = pos_key(IVec2::new(-1, 0));
    assert_ne!(a, b);
    assert_ne!(a, c);
    assert_eq!(pos_key(IVec2::new(i32::MIN, i32::MIN)), 0);
    assert_eq!(pos_key(IVec2::new(i32::MAX, i32::MAX)), u64::MAX);
    assert_eq!(pos_key(IVec2::new(0, 0)), 0x8000_0000_8000_0000);
}

#[test]
fn add_and_sub_wrap() {
    let p = IVec2::new(i32::MAX, 0);
    assert_eq!(p.add(IVec2::new(1, -1)), IVec2::new(i32::MIN, -1));
    assert_eq!(IVec2::new(i32::MIN, 3).sub(IVec2::new(1, 1)), IVec2::new(i32::MAX, 2));
    assert_eq!(IVec2::new(2, 3).add(IVec2::new(-5, 4)), IVec2::new(-3, 7));
}
