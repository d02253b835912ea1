use microstation::grid::IVec2;
use microstation::occupancy::{
    decide_move, handle_player_input, MoveOutcome, Occupancy, OccupancyChunk, OccupancyError,
};

#[test]
fn chunk_bits_read_back() {
    let mut c = OccupancyChunk::new();
    assert!(!c.is_blocked(0));
    assert!(!c.is_blocked(255));
    c.set_blocked(7, true);
    c.set_blocked(255, true);
    assert!(c.is_blocked(7));
    assert!(c.is_blocked(255));
    assert!(!c.is_blocked(6));
    assert!(!c.is_blocked(8));
    c.set_blocked(7, false);
    assert!(!c.is_blocked(7));
}

#[test]
fn blockers_set_and_clear_their_tile() {
    let mut occ = Occupancy::new();
    occ.add_chunk(IVec2::new(0, 0), 100);
    occ.add_chunk(IVec2::new(-1, 0), 101);
    assert_eq!(occ.blocked_at(IVec2::new(3, 4)), Ok(false));
    assert_eq!(occ.on_insert_blocker(IVec2::new(3, 4)), Ok(()));
    assert_eq!(occ.blocked_at(IVec2::new(3, 4)), Ok(true));
    assert_eq!(occ.blocked_at(IVec2::new(4, 3)), Ok(false));
    assert_eq!(occ.on_insert_blocker(IVec2::new(-1, 0)), Ok(()));
    assert_eq!(occ.blocked_at(IVec2::new(-1, 0)), Ok(true));
    assert_eq!(occ.blocked_at(IVec2::new(15, 0)), Ok(false));
    assert_eq!(occ.on_remove_blocker(IVec2::new(3, 4)), Ok(()));
    assert_eq!(occ.blocked_at(IVec2::new(3, 4)), Ok(false));
}

#[test]
fn missing_chunk_is_an_error() {
    let mut occ = Occupancy::new();
    assert_eq!(occ.blocked_at(IVec2::new(0, 0)), Err(OccupancyError::ChunkMissing));
    assert_eq!(occ.on_insert_blocker(IVec2::new(20, 20)), Err(OccupancyError::ChunkMissing));
}

#[test]
fn moves_go_only_to_free_tiles() {
    let mut occ = Occupancy::new();
    occ.add_chunk(IVec2::new(0, 0), 1);
    occ.on_insert_blocker(IVec2::new(1, 0)).unwrap();
    let p = IVec2::new(0, 0);
    assert_eq!(decide_move(&occ, p, IVec2::new(1, 0), true), Ok(MoveOutcome::Stay));
    assert_eq!(decide_move(&occ, p, IVec2::new(0, 1), true), Ok(MoveOutcome::MoveTo(IVec2::new(0, 1))));
    assert_eq!(decide_move(&occ, p, IVec2::new(0, 1), false), Ok(MoveOutcome::Stay));
    assert_eq!(decide_move(&occ, p, IVec2::new(-1, 0), true), Err(OccupancyError::ChunkMissing));
}

#[test]
fn direct_input_adds_the_direction() {
    assert_eq!(handle_player_input(IVec2::new(2, 2), IVec2::new(-1, 3)), IVec2::new(1, 5));
}

#[test]
fn writes_reach_only_their_tile() {
    let mut occ = Occupancy::new();
    occ.add_chunk(IVec2::new(0, 0), 7);
    assert_eq!(occ.set_blocked_at(IVec2::new(2, 3), true), Ok(()));
    assert_eq!(occ.blocked_at(IVec2::new(2, 3)), Ok(true));
    assert_eq!(occ.blocked_at(IVec2::new(3, 2)), Ok(false));
    assert_eq!(occ.set_blocked_at(IVec2::new(16, 0), true), Err(OccupancyError::ChunkMissing));
    assert_eq!(occ.set_blocked_at(IVec2::new(2, 3), false), Ok(()));
    assert_eq!(occ.blocked_at(IVec2::new(2, 3)), Ok(false));
}

#[test]
fn every_tile_of_a_chunk_can_be_written_alone() {
    let mut c = OccupancyChunk::new();
    for idx in 0..256 {
        c.set_blocked(idx, true);
        for j in 0..256 {
            assert_eq!(c.is_blocked(j), j == idx);
        }
        c.set_blocked(idx, false);
    }
}
