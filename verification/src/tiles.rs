//! Tile sprites on the client: the loaded image of each tile kind, and where
//! each tile of a chunk is drawn.
use crate::grid::{IVec2, spec_tile_world_pos, tile_world_pos, CHUNK_SIZE, CHUNK_TILES_COUNT};
use std::collections::HashMap;
use vstd::prelude::*;

verus! {

broadcast use {
    vstd::std_specs::hash::group_hash_axioms,
    vstd::std_specs::hash::axiom_random_state_builds_valid_hashers,
    vstd::std_specs::hash::axiom_u8_obeys_hash_table_key_model,
};

/// The loaded images of the tile kinds: the images in load order, and for each
/// tile kind the place of its image.
pub struct TileSprites<H> {
    pub sprites: Vec<H>,
    pub indexes: HashMap<u8, usize>,
}

/// The image of tile kind `t`, if it has one.
pub open spec fn spec_sprite_by_idx<H>(sprites: Seq<H>, indexes: Map<u8, usize>, t: u8) -> Option<
    H,
> {
    if indexes.contains_key(t) && indexes[t] < sprites.len() {
        Some(sprites[indexes[t] as int])
    } else {
        None
    }
}

impl<H> TileSprites<H> {
    /// No images.
    pub fn new() -> (r: TileSprites<H>)
        ensures
            r.sprites@ == Seq::<H>::empty(),
            r.indexes@ == Map::<u8, usize>::empty(),
    {
        TileSprites { sprites: Vec::new(), indexes: HashMap::new() }
    }

    /// The image of tile kind `tile_idx`, if it has one.
    pub fn sprite_by_idx(&self, tile_idx: u8) -> (r: Option<&H>)
        ensures
            match spec_sprite_by_idx(self.sprites@, self.indexes@, tile_idx) {
                Some(h) => r matches Some(x) && *x == h,
                None => r is None,
            },
    {
        let i = match self.indexes.get(&tile_idx) {
            Some(i) => *i,
            None => {
                return None;
            },
        };
        if i < self.sprites.len() {
            Some(&self.sprites[i])
        } else {
            None
        }
    }

    /// Forgets every image.
    pub fn clear(&mut self)
        ensures
            final(self).sprites@ == Seq::<H>::empty(),
            final(self).indexes@ == Map::<u8, usize>::empty(),
    {
        self.sprites.clear();
        self.indexes.clear();
    }

    /// Whether no image is loaded.
    pub fn is_empty(&self) -> (r: bool)
        ensures
            r == (self.sprites@.len() == 0),
    {
        self.sprites.len() == 0
    }

    /// Records `image` as the image of tile kind `tile_idx`, after the others.
    pub fn add(&mut self, tile_idx: u8, image: H)
        ensures
            final(self).sprites@ == old(self).sprites@.push(image),
            final(self).indexes@ == old(self).indexes@.insert(tile_idx, old(self).sprites@.len() as usize),
    {
        let idx = self.sprites.len();
        self.indexes.insert(tile_idx, idx);
        self.sprites.push(image);
    }
}

/// Law: right after tile kind `t` gets an image, its image is that one.
pub proof fn lemma_added_sprite_is_found<H>(
    sprites: Seq<H>,
    indexes: Map<u8, usize>,
    t: u8,
    image: H,
)
    requires
        sprites.len() < usize::MAX,
    ensures
        spec_sprite_by_idx(sprites.push(image), indexes.insert(t, sprites.len() as usize), t)
            == Some(image),
{
}

/// Where each non-void tile of the chunk at `crd` is drawn, for the first `n` tiles.
pub open spec fn spec_tile_placements(crd: IVec2, tiles: Seq<u8>, n: int) -> Seq<
    (IVec2, u8),
>
    decreases n,
{
    if n <= 0 {
        Seq::empty()
    } else {
        let prev = spec_tile_placements(crd, tiles, n - 1);
        if tiles[n - 1] == 0 {
            prev
        } else {
            prev.push((spec_tile_world_pos(crd, n - 1), tiles[n - 1]))
        }
    }
}

/// Lists, in tile order, the world position and kind of every tile of the
/// chunk at `crd` except the void ones (kind 0).
pub fn chunk_tile_placements(crd: IVec2, tiles: &Vec<u8>) -> (r: Vec<(IVec2, u8)>)
    requires
        tiles@.len() == CHUNK_TILES_COUNT,
        i32::MIN <= crd.x * CHUNK_SIZE,
        crd.x * CHUNK_SIZE + CHUNK_SIZE <= i32::MAX + 1,
        i32::MIN <= crd.y * CHUNK_SIZE,
        crd.y * CHUNK_SIZE + CHUNK_SIZE <= i32::MAX + 1,
    ensures
        r@ == spec_tile_placements(crd, tiles@, CHUNK_TILES_COUNT as int),
{
    let mut r: Vec<(IVec2, u8)> = Vec::new();
    let mut i: usize = 0;
    while i < tiles.len()
        invariant
            0 <= i <= CHUNK_TILES_COUNT,
            tiles@.len() == CHUNK_TILES_COUNT,
            i32::MIN <= crd.x * CHUNK_SIZE,
            crd.x * CHUNK_SIZE + CHUNK_SIZE <= i32::MAX + 1,
            i32::MIN <= crd.y * CHUNK_SIZE,
            crd.y * CHUNK_SIZE + CHUNK_SIZE <= i32::MAX + 1,
            r@ == spec_tile_placements(crd, tiles@, i as int),
        decreases CHUNK_TILES_COUNT - i,
    {
        let t = tiles[i];
        if t != 0 {
            r.push((tile_world_pos(crd, i), t));
        }
        i = i + 1;
    }
    r
}

} // verus!
