use microstation::prototypes::{
    on_prototype_added, prototype_error_text, register_tiles, spawn_prototype, tile_sprite_requests,
    EntityPrototype, EntityPrototypeComponent, Prototype, PrototypeError, PrototypeKind, PrototypeManager,
    ServerSpawn, SpriteInfo, SpriteMode, SpriteSpec, TilePrototype, TileRegistry, TileRegistryError,
};

fn manager() -> PrototypeManager {
    PrototypeManager {
        prototypes: vec![
            (
                "steel_wall".to_string(),
                Prototype {
                    name: Some("Steel wall".into()),
                    proto: PrototypeKind::Entity(EntityPrototype {
                        components: vec![
                            EntityPrototypeComponent::Sprite(SpriteInfo { path: "walls/steel.png".into(), mode: SpriteMode::Wall }),
                            EntityPrototypeComponent::BlocksMovement,
                        ],
                    }),
                },
            ),
            (
                "floor_steel".to_string(),
                Prototype { name: None, proto: PrototypeKind::Tile(TilePrototype { sprite_path: "tiles/steel.png".into() }) },
            ),
            (
                "crate".to_string(),
                Prototype {
                    name: None,
                    proto: PrototypeKind::Entity(EntityPrototype {
                        components: vec![EntityPrototypeComponent::Sprite(SpriteInfo {
                            path: "crate.png".into(),
                            mode: SpriteMode::Simple,
                        })],
                    }),
                },
            ),
            (
                "floor_wood".to_string(),
                Prototype { name: Some("Wood".into()), proto: PrototypeKind::Tile(TilePrototype { sprite_path: "tiles/wood.png".into() }) },
            ),
        ],
    }
}

#[test]
fn tiles_registered_after_void() {
    assert_eq!(register_tiles(&manager()), vec!["void", "floor_steel", "floor_wood"]);
    assert_eq!(register_tiles(&PrototypeManager { prototypes: vec![] }), vec!["void"]);
}

#[test]
fn server_spawns() {
    let m = manager();
    assert_eq!(spawn_prototype(&m, "steel_wall"), Ok(ServerSpawn { blocks_movement: true }));
    assert_eq!(spawn_prototype(&m, "crate"), Ok(ServerSpawn { blocks_movement: false }));
    assert_eq!(spawn_prototype(&m, "floor_wood"), Err(PrototypeError::NotEntity));
    assert_eq!(spawn_prototype(&m, "ghost"), Err(PrototypeError::NotFound));
    assert_eq!(prototype_error_text(PrototypeError::NotFound, "ghost"), "prototype `ghost` not found");
    assert_eq!(prototype_error_text(PrototypeError::NotEntity, "floor_wood"), "prototype `floor_wood` is not an entity");
}

#[test]
fn client_spawns() {
    let m = manager();
    let plan = on_prototype_added(&m, "steel_wall").ok().unwrap();
    assert_eq!(plan.name.as_deref(), Some("Steel wall"));
    let sprites = plan.sprites.ok().unwrap();
    assert_eq!(sprites.len(), 1);
    assert!(matches!(&sprites[0], SpriteSpec::Wall(p) if p == "walls/steel.png"));
    let plan = on_prototype_added(&m, "crate").ok().unwrap();
    assert!(matches!(&plan.sprites.ok().unwrap()[0], SpriteSpec::Simple(p) if p == "crate.png"));
    let plan = on_prototype_added(&m, "floor_wood").ok().unwrap();
    assert_eq!(plan.name.as_deref(), Some("Wood"));
    assert!(matches!(plan.sprites, Err(PrototypeError::NotEntity)));
    assert!(matches!(on_prototype_added(&m, "ghost"), Err(PrototypeError::NotFound)));
}

#[test]
fn tile_numbers() {
    let reg = TileRegistry { tiles: register_tiles(&manager()) };
    assert_eq!(reg.get_idx("void"), Ok(0));
    assert_eq!(reg.get_idx("floor_wood"), Ok(2));
    assert_eq!(reg.get_idx("lava"), Err(TileRegistryError::Unknown));
    let mut many: Vec<String> = (0..300).map(|i| format!("t{i}")).collect();
    many.push("late".into());
    assert_eq!(TileRegistry { tiles: many }.get_idx("late"), Err(TileRegistryError::OutOfRange));
}

#[test]
fn tile_sprites_to_load() {
    let m = manager();
    let reg = TileRegistry {
        tiles: vec!["void".into(), "floor_steel".into(), "missing".into(), "crate".into(), "floor_wood".into()],
    };
    let req = tile_sprite_requests(&reg, &m);
    let got: Vec<(u8, String)> = req.into_iter().map(|r| (r.tile_idx, r.sprite_path)).collect();
    assert_eq!(got, vec![(1, "tiles/steel.png".to_string()), (4, "tiles/wood.png".to_string())]);
}

#[test]
fn prototypes_are_found_by_id() {
    let m = manager();
    assert_eq!(m.find("steel_wall"), Some(0));
    assert_eq!(m.find("floor_wood"), Some(3));
    assert_eq!(m.find("steel"), None);
    assert_eq!(m.find(""), None);
}
