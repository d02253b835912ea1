//! Prototypes: named templates of entities and tiles, what spawning one does
//! on the server and on the client, and the registry that numbers tile kinds.
use crate::text::text_eq;
use vstd::prelude::*;

verus! {

/// How a prototype's sprite is drawn.
#[derive(Clone, Copy, Debug, PartialEq, Eq, Structural)]
pub enum SpriteMode {
    /// A plain image.
    Simple,
    /// A wall that joins up with neighbouring walls.
    Wall,
}

/// The sprite of an entity prototype.
pub struct SpriteInfo {
    pub path: String,
    pub mode: SpriteMode,
}

/// One component of an entity prototype.
pub enum EntityPrototypeComponent {
    /// The entity blocks movement (handled by the server).
    BlocksMovement,
    /// The entity is drawn with this sprite (handled by the client).
    Sprite(SpriteInfo),
}

/// A template for entities.
pub struct EntityPrototype {
    pub components: Vec<EntityPrototypeComponent>,
}

/// A template for a tile kind.
pub struct TilePrototype {
    pub sprite_path: String,
}

/// What a prototype makes.
pub enum PrototypeKind {
    Entity(EntityPrototype),
    Tile(TilePrototype),
}

/// A prototype: an optional display name and what it makes.
pub struct Prototype {
    pub name: Option<String>,
    pub proto: PrototypeKind,
}

/// All prototypes, by id. Where an id occurs twice, the first entry counts.
pub struct PrototypeManager {
    pub prototypes: Vec<(String, Prototype)>,
}

/// The entry of `id` in `entries`: the first whose id is `id`.
pub open spec fn is_entry_of(entries: Seq<(String, Prototype)>, id: Seq<char>, i: int) -> bool {
    &&& 0 <= i < entries.len()
    &&& entries[i].0@ == id
    &&& forall|j: int| 0 <= j < i ==> #[trigger] entries[j].0@ != id
}

/// No entry of `entries` has id `id`.
pub open spec fn has_no_entry(entries: Seq<(String, Prototype)>, id: Seq<char>) -> bool {
    forall|j: int| 0 <= j < entries.len() ==> #[trigger] entries[j].0@ != id
}

/// Why a prototype could not be spawned.
#[derive(Clone, Copy, Debug, PartialEq, Eq, Structural)]
pub enum PrototypeError {
    /// No prototype has the id.
    NotFound,
    /// The prototype makes tiles, not entities.
    NotEntity,
}

impl PrototypeManager {
    /// Finds the entry of prototype `id`.
    pub fn find(&self, id: &str) -> (r: Option<usize>)
        ensures
            match r {
                Some(i) => is_entry_of(self.prototypes@, id@, i as int),
                None => has_no_entry(self.prototypes@, id@),
            },
    {
        let mut i: usize = 0;
        while i < self.prototypes.len()
            invariant
                0 <= i <= self.prototypes@.len(),
                forall|j: int| 0 <= j < i ==> #[trigger] self.prototypes@[j].0@ != id@,
            decreases self.prototypes@.len() - i,
        {
            if text_eq(self.prototypes[i].0.as_str(), id) {
                return Some(i);
            }
            i = i + 1;
        }
        None
    }
}

/// The prototype makes tiles.
pub open spec fn is_tile(p: (String, Prototype)) -> bool {
    p.1.proto is Tile
}

/// The ids that `register_tiles` hands the tile registry: "void" first, then
/// every tile prototype's id, in prototype order.
pub open spec fn spec_tile_ids(entries: Seq<(String, Prototype)>) -> Seq<Seq<char>> {
    seq!["void"@] + entries.filter(|p: (String, Prototype)| is_tile(p)).map_values(
        |p: (String, Prototype)| p.0@,
    )
}

/// Lists the tile kinds to register: "void" first, then the tile prototypes.
pub fn register_tiles(protos: &PrototypeManager) -> (ids: Vec<String>)
    ensures
        ids@.map_values(|s: String| s@) == spec_tile_ids(protos.prototypes@),
{
    let mut ids: Vec<String> = Vec::new();
    ids.push(String::from_str("void"));
    let ghost entries = protos.prototypes@;
    let ghost tile = |p: (String, Prototype)| is_tile(p);
    let ghost idv = |p: (String, Prototype)| p.0@;
    let mut i: usize = 0;
    while i < protos.prototypes.len()
        invariant
            0 <= i <= entries.len(),
            entries == protos.prototypes@,
            tile == (|p: (String, Prototype)| is_tile(p)),
            idv == (|p: (String, Prototype)| p.0@),
            ids@.map_values(|s: String| s@) == seq!["void"@] + entries.take(i as int).filter(
                tile,
            ).map_values(idv),
        decreases entries.len() - i,
    {
        let ghost before = ids@.map_values(|s: String| s@);
        proof {
            assert(entries.take(i + 1).drop_last() =~= entries.take(i as int));
            reveal_with_fuel(Seq::<_>::filter, 1);
        }
        match &protos.prototypes[i].1.proto {
            PrototypeKind::Tile(_) => {
                ids.push(protos.prototypes[i].0.clone());
                proof {
                    let f = entries.take(i as int).filter(tile);
                    assert(f.push(entries[i as int]).map_values(idv) =~= f.map_values(idv).push(
                        idv(entries[i as int]),
                    ));
                    assert(ids@.map_values(|s: String| s@) =~= before.push(
                        entries[i as int].0@,
                    ));
                }
            },
            PrototypeKind::Entity(_) => {},
        }
        i = i + 1;
        assert(ids@.map_values(|s: String| s@) =~= seq!["void"@] + entries.take(i as int).filter(
            tile,
        ).map_values(idv));
    }
    assert(entries.take(entries.len() as int) =~= entries);
    ids
}

/// The entity prototype has a `BlocksMovement` component.
pub open spec fn blocks_movement(e: EntityPrototype) -> bool {
    exists|i: int|
        0 <= i < e.components@.len() && #[trigger] e.components@[i] is BlocksMovement
}

/// What the server does when it spawns an entity prototype, apart from the
/// prototype id, position and replication that every spawn gets.
#[derive(Clone, Copy, Debug, PartialEq, Eq, Structural)]
pub struct ServerSpawn {
    /// The entity gets `BlocksMovement`.
    pub blocks_movement: bool,
}

/// Plans the server's spawn of prototype `id`: it must exist and make entities;
/// of its components the server handles `BlocksMovement`.
pub fn spawn_prototype(protos: &PrototypeManager, id: &str) -> (r: Result<
    ServerSpawn,
    PrototypeError,
>)
    ensures
        has_no_entry(protos.prototypes@, id@) ==> r == Err::<ServerSpawn, PrototypeError>(
            PrototypeError::NotFound,
        ),
        forall|i: int|
            #[trigger] is_entry_of(protos.prototypes@, id@, i) ==> match protos.prototypes@[i].1.proto {
                PrototypeKind::Tile(_) => r == Err::<ServerSpawn, PrototypeError>(
                    PrototypeError::NotEntity,
                ),
                PrototypeKind::Entity(e) => r == Ok::<ServerSpawn, PrototypeError>(
                    ServerSpawn { blocks_movement: blocks_movement(e) },
                ),
            },
{
    let i = match protos.find(id) {
        Some(i) => i,
        None => {
            return Err(PrototypeError::NotFound);
        },
    };
    proof {
        assert forall|k: int| #[trigger] is_entry_of(protos.prototypes@, id@, k) implies k
            == i by {
            if k < i {
                assert(protos.prototypes@[k].0@ != id@);
            } else if k > i {
                assert(protos.prototypes@[i as int].0@ != id@);
            }
        }
    }
    match &protos.prototypes[i].1.proto {
        PrototypeKind::Tile(_) => Err(PrototypeError::NotEntity),
        PrototypeKind::Entity(e) => {
            let mut blocks = false;
            let mut j: usize = 0;
            while j < e.components.len()
                invariant
                    0 <= j <= e.components@.len(),
                    blocks == exists|k: int| 0 <= k < j && #[trigger] e.components@[k] is BlocksMovement,
                decreases e.components@.len() - j,
            {
                match &e.components[j] {
                    EntityPrototypeComponent::BlocksMovement => {
                        blocks = true;
                    },
                    _ => {},
                }
                j = j + 1;
            }
            Ok(ServerSpawn { blocks_movement: blocks })
        },
    }
}

/// The message of a failed spawn of prototype `id`.
pub open spec fn spec_prototype_error_text(e: PrototypeError, id: Seq<char>) -> Seq<char> {
    match e {
        PrototypeError::NotFound => "prototype `"@ + id + "` not found"@,
        PrototypeError::NotEntity => "prototype `"@ + id + "` is not an entity"@,
    }
}

/// Builds the message of a failed spawn of prototype `id`.
pub fn prototype_error_text(e: PrototypeError, id: &str) -> (r: String)
    ensures
        r@ == spec_prototype_error_text(e, id@),
{
    let mut s = String::from_str("prototype `");
    s.append(id);
    match e {
        PrototypeError::NotFound => s.append("` not found"),
        PrototypeError::NotEntity => s.append("` is not an entity"),
    }
    s
}

/// A sprite the client attaches to a spawned entity.
pub enum SpriteSpec {
    /// A plain sprite with this image.
    Simple(String),
    /// A wall sprite with this texture and an empty neighbour mask.
    Wall(String),
}

/// The client's sprite for a prototype sprite component.
pub open spec fn sprite_spec_view(c: EntityPrototypeComponent) -> Option<(SpriteMode, Seq<char>)> {
    match c {
        EntityPrototypeComponent::Sprite(info) => Some((info.mode, info.path@)),
        EntityPrototypeComponent::BlocksMovement => None,
    }
}

/// What the client does when an entity of prototype `id` appears: give it the
/// prototype's name, if any, then, for an entity prototype, its sprites; a tile
/// prototype is an error after the name is given.
pub struct ClientSpawn {
    pub name: Option<String>,
    pub sprites: Result<Vec<SpriteSpec>, PrototypeError>,
}

/// The (mode, image) of the sprites the client attaches for the first `n` components.
pub open spec fn spec_client_sprites(comps: Seq<EntityPrototypeComponent>, n: int) -> Seq<
    (SpriteMode, Seq<char>),
>
    decreases n,
{
    if n <= 0 {
        Seq::empty()
    } else {
        let prev = spec_client_sprites(comps, n - 1);
        match sprite_spec_view(comps[n - 1]) {
            Some(s) => prev.push(s),
            None => prev,
        }
    }
}

/// The (mode, image) of a `SpriteSpec`.
pub open spec fn spec_view_of(s: SpriteSpec) -> (SpriteMode, Seq<char>) {
    match s {
        SpriteSpec::Simple(p) => (SpriteMode::Simple, p@),
        SpriteSpec::Wall(p) => (SpriteMode::Wall, p@),
    }
}

/// Plans the client's handling of a newly replicated entity of prototype `id`.
pub fn on_prototype_added(protos: &PrototypeManager, id: &str) -> (r: Result<
    ClientSpawn,
    PrototypeError,
>)
    ensures
        has_no_entry(protos.prototypes@, id@) ==> r == Err::<ClientSpawn, PrototypeError>(
            PrototypeError::NotFound,
        ),
        forall|i: int| #[trigger]
            is_entry_of(protos.prototypes@, id@, i) ==> (r matches Ok(plan) && {
                let p = protos.prototypes@[i].1;
                &&& crate::smoothing::opt_view(plan.name) == crate::smoothing::opt_view(p.name)
                &&& match p.proto {
                    PrototypeKind::Tile(_) => plan.sprites == Err::<
                        Vec<SpriteSpec>,
                        PrototypeError,
                    >(PrototypeError::NotEntity),
                    PrototypeKind::Entity(e) => plan.sprites matches Ok(v) && v@.map_values(
                        |s: SpriteSpec| spec_view_of(s),
                    ) == spec_client_sprites(e.components@, e.components@.len() as int),
                }
            }),
{
    let i = match protos.find(id) {
        Some(i) => i,
        None => {
            return Err(PrototypeError::NotFound);
        },
    };
    proof {
        assert forall|k: int| #[trigger] is_entry_of(protos.prototypes@, id@, k) implies k
            == i by {
            if k < i {
                assert(protos.prototypes@[k].0@ != id@);
            } else if k > i {
                assert(protos.prototypes@[i as int].0@ != id@);
            }
        }
    }
    let proto = &protos.prototypes[i].1;
    let name = match &proto.name {
        Some(n) => Some(n.clone()),
        None => None,
    };
    let sprites = match &proto.proto {
        PrototypeKind::Tile(_) => Err(PrototypeError::NotEntity),
        PrototypeKind::Entity(e) => {
            let mut v: Vec<SpriteSpec> = Vec::new();
            let mut j: usize = 0;
            while j < e.components.len()
                invariant
                    0 <= j <= e.components@.len(),
                    v@.map_values(|s: SpriteSpec| spec_view_of(s)) == spec_client_sprites(
                        e.components@,
                        j as int,
                    ),
                decreases e.components@.len() - j,
            {
                let ghost before = v@.map_values(|s: SpriteSpec| spec_view_of(s));
                match &e.components[j] {
                    EntityPrototypeComponent::Sprite(info) => {
                        match info.mode {
                            SpriteMode::Simple => v.push(SpriteSpec::Simple(info.path.clone())),
                            SpriteMode::Wall => v.push(SpriteSpec::Wall(info.path.clone())),
                        }
                        assert(v@.map_values(|s: SpriteSpec| spec_view_of(s)) =~= before.push(
                            (info.mode, info.path@),
                        ));
                    },
                    EntityPrototypeComponent::BlocksMovement => {},
                }
                j = j + 1;
            }
            Ok(v)
        },
    };
    Ok(ClientSpawn { name, sprites })
}

/// The kinds of tile, numbered by their place in the list; kind 0 is the void.
pub struct TileRegistry {
    pub tiles: Vec<String>,
}

/// Why a tile kind has no number.
#[derive(Clone, Copy, Debug, PartialEq, Eq, Structural)]
pub enum TileRegistryError {
    /// No tile kind has the id.
    Unknown,
    /// The tile kind's place does not fit in a tile number.
    OutOfRange,
}

impl TileRegistry {
    /// The number of tile kind `id`: its first place in the list.
    pub fn get_idx(&self, id: &str) -> (r: Result<u8, TileRegistryError>)
        ensures
            match r {
                Ok(n) => n < self.tiles@.len() && self.tiles@[n as int]@ == id@ && forall|j: int|
                    0 <= j < n ==> #[trigger] self.tiles@[j]@ != id@,
                Err(TileRegistryError::Unknown) => forall|j: int|
                    0 <= j < self.tiles@.len() ==> #[trigger] self.tiles@[j]@ != id@,
                Err(TileRegistryError::OutOfRange) => exists|k: int|
                    256 <= k < self.tiles@.len() && self.tiles@[k]@ == id@ && forall|j: int|
                        0 <= j < k ==> #[trigger] self.tiles@[j]@ != id@,
            },
    {
        let mut i: usize = 0;
        while i < self.tiles.len()
            invariant
                0 <= i <= self.tiles@.len(),
                forall|j: int| 0 <= j < i ==> #[trigger] self.tiles@[j]@ != id@,
            decreases self.tiles@.len() - i,
        {
            if text_eq(self.tiles[i].as_str(), id) {
                if i < 256 {
                    return Ok(i as u8);
                } else {
                    return Err(TileRegistryError::OutOfRange);
                }
            }
            i = i + 1;
        }
        Err(TileRegistryError::Unknown)
    }
}

/// A tile kind whose sprite must be loaded: its number and its image path.
pub struct TileSpriteRequest {
    pub tile_idx: u8,
    pub sprite_path: String,
}

/// The sprite requests for the first `n` registered tile kinds: every kind but
/// the void whose prototype exists and makes tiles.
pub open spec fn spec_tile_requests(
    tiles: Seq<String>,
    entries: Seq<(String, Prototype)>,
    n: int,
) -> Seq<(u8, Seq<char>)>
    decreases n,
{
    if n <= 0 {
        Seq::empty()
    } else {
        let prev = spec_tile_requests(tiles, entries, n - 1);
        let k = n - 1;
        if k == 0 {
            prev
        } else if exists|i: int| is_entry_of(entries, tiles[k]@, i) {
            let i = choose|i: int| is_entry_of(entries, tiles[k]@, i);
            match entries[i].1.proto {
                PrototypeKind::Tile(t) => prev.push((k as u8, t.sprite_path@)),
                PrototypeKind::Entity(_) => prev,
            }
        } else {
            prev
        }
    }
}

/// Lists the tile sprites to load for the registered tile kinds; a kind's
/// number is its place in the list, cut to 8 bits.
pub fn tile_sprite_requests(registry: &TileRegistry, protos: &PrototypeManager) -> (r: Vec<
    TileSpriteRequest,
>)
    ensures
        r@.map_values(|q: TileSpriteRequest| (q.tile_idx, q.sprite_path@)) == spec_tile_requests(
            registry.tiles@,
            protos.prototypes@,
            registry.tiles@.len() as int,
        ),
{
    let mut r: Vec<TileSpriteRequest> = Vec::new();
    let mut k: usize = 0;
    while k < registry.tiles.len()
        invariant
            0 <= k <= registry.tiles@.len(),
            r@.map_values(|q: TileSpriteRequest| (q.tile_idx, q.sprite_path@))
                == spec_tile_requests(registry.tiles@, protos.prototypes@, k as int),
        decreases registry.tiles@.len() - k,
    {
        let ghost before = r@.map_values(|q: TileSpriteRequest| (q.tile_idx, q.sprite_path@));
        if k != 0 {
            match protos.find(registry.tiles[k].as_str()) {
                Some(i) => {
                    proof {
                        let id = registry.tiles@[k as int]@;
                        assert(is_entry_of(protos.prototypes@, id, i as int));
                        let c = choose|c: int| is_entry_of(protos.prototypes@, id, c);
                        if c < i {
                            assert(protos.prototypes@[c].0@ != id);
                        } else if c > i {
                            assert(protos.prototypes@[i as int].0@ != id);
                        }
                    }
                    match &protos.prototypes[i].1.proto {
                        PrototypeKind::Tile(t) => {
                            r.push(
                                TileSpriteRequest {
                                    tile_idx: (k % 256) as u8,
                                    sprite_path: t.sprite_path.clone(),
                                },
                            );
                            assert((k % 256) as u8 == k as u8) by (bit_vector);
                            assert(r@.map_values(
                                |q: TileSpriteRequest| (q.tile_idx, q.sprite_path@),
                            ) =~= before.push((k as u8, t.sprite_path@)));
                        },
                        PrototypeKind::Entity(_) => {},
                    }
                },
                None => {},
            }
        }
        k = k + 1;
    }
    r
}

} // verus!
