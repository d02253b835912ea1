use microstation::grid::IVec2;
use microstation::smoothing::{
    calculate_cardinal, calculate_corners, calculate_diagonal, create_corner_layer, has_matching_neighbor,
    is_compatible, process_smooth_queue, DirectionOffset, IconSmooth, IconSmoothingMode, SmoothEntry,
    SmoothQueue, SmoothSpatialIndex, SpriteUpdate,
};
use std::collections::{HashMap, HashSet};

fn smooth(key: Option<&str>, extra: &[&str], base: &str, mode: IconSmoothingMode) -> IconSmooth {
    IconSmooth {
        enabled: true,
        smooth_key: key.map(|k| k.to_string()),
        additional_keys: extra.iter().map(|k| k.to_string()).collect(),
        state_base: base.to_string(),
        mode,
    }
}

fn world(entries: &[(u64, i32, i32, IconSmooth)]) -> (HashMap<u64, SmoothEntry>, SmoothSpatialIndex) {
    let mut data = HashMap::new();
    let mut index = SmoothSpatialIndex::new();
    for (e, x, y, s) in entries {
        data.insert(*e, SmoothEntry { pos: IVec2::new(*x, *y), smooth: s.clone() });
        index.insert(*e, IVec2::new(*x, *y));
    }
    (data, index)
}

#[test]
fn compatibility_needs_keys_and_enabled_neighbour() {
    let a = smooth(Some("wall"), &["window"], "w", IconSmoothingMode::CardinalFlags);
    let b = smooth(Some("wall"), &[], "w", IconSmoothingMode::CardinalFlags);
    let c = smooth(Some("window"), &[], "w", IconSmoothingMode::CardinalFlags);
    let d = smooth(Some("table"), &[], "t", IconSmoothingMode::CardinalFlags);
    let none = smooth(None, &[], "n", IconSmoothingMode::CardinalFlags);
    assert!(is_compatible(&a, &b));
    assert!(is_compatible(&a, &c));
    assert!(!is_compatible(&c, &a));
    assert!(!is_compatible(&a, &d));
    assert!(!is_compatible(&a, &none));
    assert!(!is_compatible(&none, &a));
    let mut off = b.clone();
    off.enabled = false;
    assert!(!is_compatible(&a, &off));
}

#[test]
fn cardinal_state_names_the_neighbours() {
    let w = || smooth(Some("wall"), &[], "wall", IconSmoothingMode::CardinalFlags);
    let (data, index) = world(&[(1, 0, 0, w()), (2, 0, 1, w()), (3, -1, 0, w()), (4, 1, 1, w())]);
    let s = calculate_cardinal(&data[&1].smooth, IVec2::new(0, 0), &data, &index);
    assert_eq!(s, "wall9");
    let s = calculate_cardinal(&data[&2].smooth, IVec2::new(0, 1), &data, &index);
    assert_eq!(s, "wall6");
    assert!(has_matching_neighbor(IVec2::new(0, 1), &data[&1].smooth, &data, &index));
    assert!(!has_matching_neighbor(IVec2::new(3, 3), &data[&1].smooth, &data, &index));
}

#[test]
fn cardinal_all_sides_is_fifteen() {
    let w = || smooth(Some("k"), &[], "s", IconSmoothingMode::CardinalFlags);
    let (data, index) = world(&[(1, 0, 0, w()), (2, 0, 1, w()), (3, 0, -1, w()), (4, 1, 0, w()), (5, -1, 0, w())]);
    assert_eq!(calculate_cardinal(&data[&1].smooth, IVec2::new(0, 0), &data, &index), "s15");
}

#[test]
fn diagonal_needs_the_whole_corner() {
    let w = || smooth(Some("k"), &[], "d", IconSmoothingMode::Diagonal);
    let (data, index) = world(&[(1, 0, 0, w()), (2, 1, 0, w()), (3, 1, -1, w())]);
    assert_eq!(calculate_diagonal(&data[&1].smooth, IVec2::new(0, 0), &data, &index), "d0");
    let (data, index) = world(&[(1, 0, 0, w()), (2, 1, 0, w()), (3, 1, -1, w()), (4, 0, -1, w())]);
    assert_eq!(calculate_diagonal(&data[&1].smooth, IVec2::new(0, 0), &data, &index), "d1");
}

#[test]
fn corner_layers_fill_from_neighbours() {
    let w = || smooth(Some("k"), &[], "c", IconSmoothingMode::Corners);
    // north, north-east and east neighbours
    let (data, index) = world(&[(1, 0, 0, w()), (2, 0, 1, w()), (3, 1, 1, w()), (4, 1, 0, w())]);
    let layers = calculate_corners(&data[&1].smooth, IVec2::new(0, 0), &data, &index);
    let states: Vec<String> = layers.iter().map(|l| l.state.clone().unwrap()).collect();
    // south-east: east is its counter-clockwise side (1); north-east: all three (7);
    // north-west: north is its clockwise side (4); south-west: nothing (0)
    assert_eq!(states, vec!["c1", "c7", "c4", "c0"]);
    assert_eq!(layers[0].dir_offset, DirectionOffset::NoRotation);
    assert_eq!(layers[1].dir_offset, DirectionOffset::CounterClockWise);
    assert_eq!(layers[2].dir_offset, DirectionOffset::Flip);
    assert_eq!(layers[3].dir_offset, DirectionOffset::ClockWise);
    assert!(layers.iter().all(|l| l.visible && l.rsi_path.is_none()));
}

#[test]
fn corner_layer_text() {
    let l = create_corner_layer("base", 5, DirectionOffset::Flip);
    assert_eq!(l.state.as_deref(), Some("base5"));
    assert!(l.visible);
}

#[test]
fn index_moves_and_removals() {
    let mut index = SmoothSpatialIndex::new();
    let mut queue = SmoothQueue::new();
    index.insert(1, IVec2::new(0, 0));
    index.insert(2, IVec2::new(0, 0));
    index.insert(3, IVec2::new(1, 1));
    index.move_to(1, IVec2::new(5, 5));
    assert_eq!(index.reverse.get(&1), Some(&IVec2::new(5, 5)));
    assert_eq!(index.index.get(&microstation::grid::pos_key(IVec2::new(0, 0))), Some(&vec![2]));
    index.move_to(2, IVec2::new(7, 7));
    assert!(index.index.get(&microstation::grid::pos_key(IVec2::new(0, 0))).is_none());
    index.remove(1, &mut queue);
    assert!(index.reverse.get(&1).is_none());
    assert!(queue.dirty_entities().is_empty());
    // removing 3 at (1,1) queues nothing but entities around (1,1); 2 is at (7,7)
    index.insert(4, IVec2::new(2, 2));
    index.remove(3, &mut queue);
    assert_eq!(queue.dirty_entities(), vec![4]);
}

#[test]
fn queue_marks_entity_and_neighbours_once() {
    let mut index = SmoothSpatialIndex::new();
    index.insert(1, IVec2::new(0, 0));
    index.insert(2, IVec2::new(1, 0));
    index.insert(3, IVec2::new(-1, -1));
    index.insert(4, IVec2::new(3, 0));
    let mut queue = SmoothQueue::new();
    queue.queue_dirty(1, IVec2::new(0, 0), &index);
    queue.queue_dirty(2, IVec2::new(1, 0), &index);
    let mut d = queue.dirty_entities();
    d.sort();
    assert_eq!(d, vec![1, 2, 3]);
}

#[test]
fn pass_updates_queued_entities_once() {
    let w = |mode| smooth(Some("k"), &[], "s", mode);
    let (data, index) = world(&[
        (1, 0, 0, w(IconSmoothingMode::CardinalFlags)),
        (2, 1, 0, w(IconSmoothingMode::Diagonal)),
        (3, 5, 5, w(IconSmoothingMode::NoSprite)),
        (4, 9, 9, w(IconSmoothingMode::CardinalFlags)),
    ]);
    let sprites: HashSet<u64> = [1u64, 2, 3].into_iter().collect();
    let mut queue = SmoothQueue::new();
    let empty = process_smooth_queue(&mut queue, &data, &sprites, &index);
    assert!(empty.is_empty());
    queue.mark_dirty(1);
    queue.mark_dirty(2);
    queue.mark_dirty(3);
    queue.mark_dirty(4);
    queue.mark_dirty(99);
    queue.mark_dirty(1);
    let out = process_smooth_queue(&mut queue, &data, &sprites, &index);
    assert!(queue.dirty_entities().is_empty());
    assert_eq!(out.len(), 2);
    assert_eq!(out[0].0, 1);
    match &out[0].1 {
        SpriteUpdate::State(s) => assert_eq!(s, "s4"),
        _ => panic!("expected a state"),
    }
    assert_eq!(out[1].0, 2);
    match &out[1].1 {
        SpriteUpdate::State(s) => assert_eq!(s, "s0"),
        _ => panic!("expected a state"),
    }
}

#[test]
fn disabled_entities_are_skipped() {
    let mut s = smooth(Some("k"), &[], "s", IconSmoothingMode::CardinalFlags);
    s.enabled = false;
    let (data, index) = world(&[(1, 0, 0, s)]);
    let sprites: HashSet<u64> = [1u64].into_iter().collect();
    let mut queue = SmoothQueue::new();
    queue.mark_dirty(1);
    assert!(process_smooth_queue(&mut queue, &data, &sprites, &index).is_empty());
}

#[test]
fn neighbours_around_a_tile_are_queued() {
    let s = smooth(Some("wall"), &[], "w", IconSmoothingMode::CardinalFlags);
    let (_, index) = world(&[
        (1, 0, 0, s.clone()),
        (2, 1, 1, s.clone()),
        (3, -1, 0, s.clone()),
        (4, 2, 0, s.clone()),
        (5, 0, -1, s.clone()),
    ]);
    let mut queue = SmoothQueue::new();
    queue.dirty_neighbors(IVec2::new(0, 0), &index);
    let mut d = queue.dirty_entities();
    d.sort();
    assert_eq!(d, vec![2, 3, 5]);
    queue.dirty_neighbors(IVec2::new(1, 0), &index);
    let mut d = queue.dirty_entities();
    d.sort();
    assert_eq!(d, vec![1, 2, 3, 4, 5]);
}
