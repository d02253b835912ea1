use microstation::grid::IVec2;
use microstation::render::{
    assign_sprite, base_sprite_decision, base_sprite_update, item_sprite_decision, layer_sprite_decision, quarter_turns,
    resolve_layers, ComplexSprite, LayerRenderData, SpriteDecision,
};
use microstation::rsi::{default_dirs, get_first_state, state_image_path, state_layout, RsiMeta, RsiSize, RsiStateMeta};
use microstation::smoothing::{DirectionOffset, Layer};
use microstation::tiles::{chunk_tile_placements, TileSprites};

fn shown(d: SpriteDecision) -> Option<(String, String)> {
    match d {
        SpriteDecision::Hide => None,
        SpriteDecision::Show { rsi, state } => Some((rsi, state)),
    }
}

#[test]
fn tile_sprites_lookup() {
    let mut t: TileSprites<&str> = TileSprites::new();
    assert!(t.is_empty());
    t.add(3, "a");
    t.add(7, "b");
    t.add(3, "c");
    assert_eq!(t.sprite_by_idx(3), Some(&"c"));
    assert_eq!(t.sprite_by_idx(7), Some(&"b"));
    assert_eq!(t.sprite_by_idx(1), None);
    t.clear();
    assert_eq!(t.sprite_by_idx(7), None);
}

#[test]
fn chunk_tiles_placed_in_world() {
    let mut tiles = vec![0u8; 256];
    tiles[0] = 2;
    tiles[17] = 5;
    let p = chunk_tile_placements(IVec2::new(-1, 2), &tiles);
    assert_eq!(p, vec![(IVec2::new(-16, 32), 2), (IVec2::new(-15, 33), 5)]);
}

#[test]
fn rsi_states_and_layouts() {
    let meta = RsiMeta {
        size: RsiSize { x: 32, y: 32 },
        states: vec![
            RsiStateMeta { name: "idle".into(), directions: 4, delay_lengths: vec![3, 3] },
            RsiStateMeta { name: "open".into(), directions: default_dirs(), delay_lengths: vec![] },
        ],
    };
    let (i, l) = state_layout(&meta, "idle").unwrap();
    assert_eq!((i, l.columns, l.rows, l.size), (0, 12, 1, RsiSize { x: 32, y: 32 }));
    let (i, l) = state_layout(&meta, "open").unwrap();
    assert_eq!((i, l.columns), (1, 1));
    assert!(state_layout(&meta, "closed").is_none());
    assert_eq!(get_first_state(&Some(meta)), Some("idle".to_string()));
    assert_eq!(get_first_state(&None), None);
    assert_eq!(get_first_state(&Some(RsiMeta { size: RsiSize { x: 1, y: 1 }, states: vec![] })), None);
    assert_eq!(state_image_path("Objects/door.rsi", "open"), "Textures/Objects/door.rsi/open.png");
}

#[test]
fn layers_fall_back_to_the_sprite() {
    let cs = ComplexSprite {
        rsi_path: Some("base.rsi".into()),
        state: Some("s".into()),
        layers: vec![
            Layer { rsi_path: None, state: Some("top".into()), visible: true, dir_offset: DirectionOffset::ClockWise },
            Layer { rsi_path: Some("other.rsi".into()), state: None, visible: false, dir_offset: DirectionOffset::Flip },
        ],
        visible: true,
    };
    let r = resolve_layers(&cs);
    assert_eq!((r[0].rsi_path.as_str(), r[0].state.as_str(), r[0].visible, r[0].turns), ("base.rsi", "top", true, -1));
    assert_eq!((r[1].rsi_path.as_str(), r[1].state.as_str(), r[1].visible, r[1].turns), ("other.rsi", "s", false, 2));
    assert_eq!(quarter_turns(DirectionOffset::CounterClockWise), 1);
    assert_eq!(quarter_turns(DirectionOffset::NoRotation), 0);
}

#[test]
fn sprite_decisions() {
    assert_eq!(shown(assign_sprite(true, "a.rsi", "s")), Some(("a.rsi".into(), "s".into())));
    assert_eq!(shown(assign_sprite(false, "a.rsi", "s")), None);
    assert_eq!(shown(assign_sprite(true, "", "s")), None);
    let mut cs = ComplexSprite { rsi_path: Some("a.rsi".into()), state: None, layers: vec![], visible: true };
    assert_eq!(shown(base_sprite_decision(&cs, Some("first".into()))), Some(("a.rsi".into(), "first".into())));
    assert_eq!(shown(base_sprite_decision(&cs, None)), None);
    cs.state = Some("own".into());
    assert_eq!(shown(base_sprite_decision(&cs, Some("first".into()))), Some(("a.rsi".into(), "own".into())));
    cs.rsi_path = None;
    assert_eq!(shown(base_sprite_decision(&cs, Some("first".into()))), None);
    let d = LayerRenderData { rsi_path: "l.rsi".into(), state: String::new(), visible: true, turns: 0 };
    assert_eq!(shown(layer_sprite_decision(&d, Some("f".into()))), Some(("l.rsi".into(), "f".into())));
    assert_eq!(shown(layer_sprite_decision(&d, None)), None);
    let item = ComplexSprite { rsi_path: Some("i.rsi".into()), state: Some("s".into()), layers: vec![], visible: false };
    assert_eq!(shown(item_sprite_decision(&item)), Some(("i.rsi".into(), "s".into())));
    let item = ComplexSprite { rsi_path: Some("i.rsi".into()), state: None, layers: vec![], visible: true };
    assert_eq!(shown(item_sprite_decision(&item)), None);
}

#[test]
fn sprites_with_layers_keep_their_own_sprite() {
    let layer = Layer { rsi_path: None, state: Some("l".into()), visible: true, dir_offset: DirectionOffset::NoRotation };
    let mut cs = ComplexSprite { rsi_path: Some("a.rsi".into()), state: Some("own".into()), layers: vec![layer], visible: true };
    assert!(base_sprite_update(&cs, Some("first".into())).is_none());
    cs.layers.clear();
    assert_eq!(
        base_sprite_update(&cs, Some("first".into())).map(shown),
        Some(Some(("a.rsi".to_string(), "own".to_string())))
    );
    cs.rsi_path = None;
    assert_eq!(base_sprite_update(&cs, None).map(shown), Some(None));
}
