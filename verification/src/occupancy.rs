//! Which tiles are blocked: one bit per tile in each chunk, chunks found by
//! their coordinate, and the movement rule that reads them.
use crate::grid::{
    IVec2, pos_key, spec_pos_key, spec_xy_chunk, spec_xy_index_chunk, xy_chunk, xy_index_chunk,
    CHUNK_TILES_COUNT,
};
use bitvec::array::BitArray;
use bitvec::order::Msb0;
use std::collections::HashMap;
use vstd::prelude::*;

verus! {

broadcast use {
    vstd::std_specs::hash::group_hash_axioms,
    vstd::std_specs::hash::axiom_random_state_builds_valid_hashers,
    vstd::std_specs::hash::axiom_u64_obeys_hash_table_key_model,
};

/// The blocked bits of one chunk's tiles: a bitvec `BitArray` of 256 bits,
/// most significant bit first in each byte, read and written only through
/// the functions below.
#[verifier::external_body]
pub struct TileBits {
    bits: BitArray<[u8; 32], Msb0>,
}

/// The bits held by a chunk's bit array, first bit first.
pub uninterp spec fn tile_bits(b: TileBits) -> Seq<bool>;

/// `BitArray::default`: bitvec builds it from all-zero storage, so it holds 256 clear bits.
#[verifier::external_body]
fn bits_zeroed() -> (r: TileBits)
    ensures
        tile_bits(r) == Seq::new(256, |_i: int| false),
{
    TileBits { bits: BitArray::default() }
}

/// `BitArray` indexing (`b[idx]`): bitvec returns the bit at `idx`, and panics past the end.
#[verifier::external_body]
fn bits_get(b: &TileBits, idx: usize) -> (r: bool)
    requires
        idx < tile_bits(*b).len(),
    ensures
        r == tile_bits(*b)[idx as int],
{
    b.bits[idx]
}

/// `BitSlice::set`, reached through `BitArray`: bitvec writes `value` into the bit
/// at `idx` and leaves the others; it panics past the end.
#[verifier::external_body]
fn bits_set(b: &mut TileBits, idx: usize, value: bool)
    requires
        idx < tile_bits(*old(b)).len(),
    ensures
        tile_bits(*final(b)) == tile_bits(*old(b)).update(idx as int, value),
{
    b.bits.set(idx, value)
}

/// The blocked tiles of one chunk, one bit per tile.
pub struct OccupancyChunk {
    tiles: TileBits,
}

impl OccupancyChunk {
    /// Whether each tile of the chunk is blocked, by tile index.
    pub closed spec fn blocked(&self) -> Seq<bool> {
        tile_bits(self.tiles)
    }

    /// A chunk holds one bit for each of its tiles.
    #[verifier::type_invariant]
    spec fn covers_chunk(self) -> bool {
        tile_bits(self.tiles).len() == CHUNK_TILES_COUNT
    }

    /// A chunk with no blocked tile.
    pub fn new() -> (r: OccupancyChunk)
        ensures
            r.blocked() == Seq::new(CHUNK_TILES_COUNT as nat, |_i: int| false),
    {
        OccupancyChunk { tiles: bits_zeroed() }
    }

    /// Whether the tile with index `idx` is blocked.
    pub fn is_blocked(&self, idx: usize) -> (r: bool)
        requires
            idx < CHUNK_TILES_COUNT,
        ensures
            self.blocked().len() == CHUNK_TILES_COUNT,
            r == self.blocked()[idx as int],
    {
        proof {
            use_type_invariant(self);
        }
        bits_get(&self.tiles, idx)
    }

    /// Marks the tile with index `idx` as blocked or free; every other tile
    /// keeps its state.
    pub fn set_blocked(&mut self, idx: usize, blocked: bool)
        requires
            idx < CHUNK_TILES_COUNT,
        ensures
            old(self).blocked().len() == CHUNK_TILES_COUNT,
            final(self).blocked() == old(self).blocked().update(idx as int, blocked),
            final(self).blocked().len() == CHUNK_TILES_COUNT,
            final(self).blocked()[idx as int] == blocked,
            forall|j: int|
                0 <= j < CHUNK_TILES_COUNT && j != idx ==> #[trigger] final(self).blocked()[j]
                    == old(self).blocked()[j],
    {
        proof {
            use_type_invariant(&*self);
        }
        let mut bits = bits_zeroed();
        std::mem::swap(&mut bits, &mut self.tiles);
        bits_set(&mut bits, idx, blocked);
        self.tiles = bits;
    }
}

/// Law: reading a tile after writing it gives back what was written, and the
/// other tiles keep their state.
pub proof fn lemma_set_then_read(tiles: Seq<bool>, idx: int, blocked: bool, other: int)
    requires
        0 <= idx < tiles.len(),
        0 <= other < tiles.len(),
    ensures
        tiles.update(idx, blocked)[idx] == blocked,
        other != idx ==> tiles.update(idx, blocked)[other] == tiles[other],
{
}

/// Why a tile's occupancy could not be read or written.
#[derive(Clone, Copy, Debug, PartialEq, Eq, Structural)]
pub enum OccupancyError {
    /// No chunk is registered at the tile's chunk coordinate.
    ChunkMissing,
    /// The registered chunk entity carries no occupancy data.
    ChunkWithoutOccupancy,
}

/// The map's chunks: the entity registered for each chunk coordinate, and the
/// occupancy data of each chunk entity.
pub struct Occupancy {
    registry: HashMap<u64, u64>,
    chunks: HashMap<u64, OccupancyChunk>,
}

/// Occupancy data of every chunk entity, as blocked-bit sequences.
pub open spec fn chunk_bits(chunks: Map<u64, OccupancyChunk>) -> Map<u64, Seq<bool>> {
    chunks.map_values(|c: OccupancyChunk| c.blocked())
}

impl Occupancy {
    /// The chunk entity registered for each chunk coordinate, by its position key.
    pub closed spec fn registry(&self) -> Map<u64, u64> {
        self.registry@
    }

    /// Whether each tile of each chunk entity is blocked.
    pub closed spec fn chunks(&self) -> Map<u64, Seq<bool>> {
        chunk_bits(self.chunks@)
    }

    /// Every chunk's occupancy data covers the whole chunk.
    pub open spec fn wf(&self) -> bool {
        forall|c: u64| #[trigger]
            self.chunks().contains_key(c) ==> self.chunks()[c].len() == CHUNK_TILES_COUNT
    }

    /// No chunk at all.
    pub fn new() -> (r: Occupancy)
        ensures
            r.wf(),
            r.registry() == Map::<u64, u64>::empty(),
            r.chunks() == Map::<u64, Seq<bool>>::empty(),
    {
        let r = Occupancy { registry: HashMap::new(), chunks: HashMap::new() };
        assert(r.chunks() =~= Map::<u64, Seq<bool>>::empty());
        r
    }

    /// A chunk entity with no blocked tile is registered at chunk coordinate `crd`.
    pub fn add_chunk(&mut self, crd: IVec2, entity: u64)
        requires
            old(self).wf(),
        ensures
            final(self).wf(),
            final(self).registry() == old(self).registry().insert(spec_pos_key(crd), entity),
            final(self).chunks() == old(self).chunks().insert(
                entity,
                Seq::new(CHUNK_TILES_COUNT as nat, |_i: int| false),
            ),
    {
        self.registry.insert(pos_key(crd), entity);
        self.chunks.insert(entity, OccupancyChunk::new());
        assert(self.chunks() =~= old(self).chunks().insert(
            entity,
            Seq::new(CHUNK_TILES_COUNT as nat, |_i: int| false),
        ));
    }

    /// The chunk entity that holds the tile at `p`, if a chunk is registered there.
    pub open spec fn spec_chunk_of(&self, p: IVec2) -> Option<u64> {
        let k = spec_pos_key(spec_xy_chunk(p));
        if self.registry().contains_key(k) {
            Some(self.registry()[k])
        } else {
            None
        }
    }

    /// Whether the tile at `p` is blocked, or why that cannot be told.
    pub open spec fn spec_blocked_at(&self, p: IVec2) -> Result<bool, OccupancyError> {
        match self.spec_chunk_of(p) {
            None => Err(OccupancyError::ChunkMissing),
            Some(c) => if self.chunks().contains_key(c) {
                Ok(self.chunks()[c][spec_xy_index_chunk(p)])
            } else {
                Err(OccupancyError::ChunkWithoutOccupancy)
            },
        }
    }

    /// Looks up whether the tile at `p` is blocked.
    pub fn blocked_at(&self, p: IVec2) -> (r: Result<bool, OccupancyError>)
        requires
            self.wf(),
        ensures
            r == self.spec_blocked_at(p),
    {
        let crd = xy_chunk(p);
        let idx = xy_index_chunk(p);
        let c = match self.registry.get(&pos_key(crd)) {
            Some(c) => *c,
            None => {
                return Err(OccupancyError::ChunkMissing);
            },
        };
        match self.chunks.get(&c) {
            Some(chunk) => {
                assert(self.chunks()[c] == chunk.blocked());
                Ok(chunk.is_blocked(idx))
            },
            None => Err(OccupancyError::ChunkWithoutOccupancy),
        }
    }

    /// Marks the tile at `p` as blocked or free in the chunk that holds it; fails,
    /// changing nothing, where `blocked_at` fails.
    pub fn set_blocked_at(&mut self, p: IVec2, blocked: bool) -> (r: Result<(), OccupancyError>)
        requires
            old(self).wf(),
        ensures
            final(self).wf(),
            final(self).registry() == old(self).registry(),
            match old(self).spec_blocked_at(p) {
                Err(e) => r == Err::<(), OccupancyError>(e) && final(self).chunks() == old(
                    self,
                ).chunks(),
                Ok(_) => {
                    let c = old(self).spec_chunk_of(p)->0;
                    &&& r is Ok
                    &&& final(self).chunks() == old(self).chunks().insert(
                        c,
                        old(self).chunks()[c].update(spec_xy_index_chunk(p), blocked),
                    )
                },
            },
    {
        let crd = xy_chunk(p);
        let idx = xy_index_chunk(p);
        let c = match self.registry.get(&pos_key(crd)) {
            Some(c) => *c,
            None => {
                return Err(OccupancyError::ChunkMissing);
            },
        };
        match self.chunks.remove(&c) {
            Some(mut chunk) => {
                assert(old(self).chunks()[c] == chunk.blocked());
                chunk.set_blocked(idx, blocked);
                self.chunks.insert(c, chunk);
                assert forall|c2: u64| #[trigger] self.chunks().contains_key(c2) implies self.chunks()[c2].len()
                    == CHUNK_TILES_COUNT by {
                    if c2 != c {
                        assert(old(self).chunks().contains_key(c2));
                    }
                }
                assert(self.chunks() =~= old(self).chunks().insert(
                    c,
                    old(self).chunks()[c].update(spec_xy_index_chunk(p), blocked),
                ));
                Ok(())
            },
            None => {
                assert(self.chunks@ =~= old(self).chunks@);
                Err(OccupancyError::ChunkWithoutOccupancy)
            },
        }
    }

    /// A movement blocker appeared on `p`: its tile becomes blocked.
    pub fn on_insert_blocker(&mut self, p: IVec2) -> (r: Result<(), OccupancyError>)
        requires
            old(self).wf(),
        ensures
            final(self).wf(),
            r is Ok <==> old(self).spec_blocked_at(p) is Ok,
            r is Err ==> r == Err::<(), OccupancyError>(old(self).spec_blocked_at(p)->Err_0)
                && final(self).chunks() == old(self).chunks(),
            r is Ok ==> final(self).spec_blocked_at(p) == Ok::<bool, OccupancyError>(true),
            forall|q: IVec2|
                old(self).spec_chunk_of(q) != old(self).spec_chunk_of(p) || spec_xy_index_chunk(q)
                    != spec_xy_index_chunk(p) ==> #[trigger] final(self).spec_blocked_at(q)
                    == old(self).spec_blocked_at(q),
    {
        let r = self.set_blocked_at(p, true);
        proof {
            self.lemma_write_effect(*old(self), p, true);
        }
        r
    }

    /// A movement blocker left `p`: its tile becomes free.
    pub fn on_remove_blocker(&mut self, p: IVec2) -> (r: Result<(), OccupancyError>)
        requires
            old(self).wf(),
        ensures
            final(self).wf(),
            r is Ok <==> old(self).spec_blocked_at(p) is Ok,
            r is Err ==> r == Err::<(), OccupancyError>(old(self).spec_blocked_at(p)->Err_0)
                && final(self).chunks() == old(self).chunks(),
            r is Ok ==> final(self).spec_blocked_at(p) == Ok::<bool, OccupancyError>(false),
            forall|q: IVec2|
                old(self).spec_chunk_of(q) != old(self).spec_chunk_of(p) || spec_xy_index_chunk(q)
                    != spec_xy_index_chunk(p) ==> #[trigger] final(self).spec_blocked_at(q)
                    == old(self).spec_blocked_at(q),
    {
        let r = self.set_blocked_at(p, false);
        proof {
            self.lemma_write_effect(*old(self), p, false);
        }
        r
    }

    /// What a write at `p` does to every read, for `self` the state after the write.
    proof fn lemma_write_effect(&self, before: Occupancy, p: IVec2, blocked: bool)
        requires
            before.wf(),
            self.registry() == before.registry(),
            match before.spec_blocked_at(p) {
                Err(_) => self.chunks() == before.chunks(),
                Ok(_) => {
                    let c = before.spec_chunk_of(p)->0;
                    self.chunks() == before.chunks().insert(
                        c,
                        before.chunks()[c].update(spec_xy_index_chunk(p), blocked),
                    )
                },
            },
        ensures
            before.spec_blocked_at(p) is Ok ==> self.spec_blocked_at(p) == Ok::<
                bool,
                OccupancyError,
            >(blocked),
            forall|q: IVec2|
                before.spec_chunk_of(q) != before.spec_chunk_of(p) || spec_xy_index_chunk(q)
                    != spec_xy_index_chunk(p) ==> #[trigger] self.spec_blocked_at(q)
                    == before.spec_blocked_at(q),
    {
        crate::grid::lemma_chunk_round_trip(p);
        assert forall|q: IVec2|
            before.spec_chunk_of(q) != before.spec_chunk_of(p) || spec_xy_index_chunk(q)
                != spec_xy_index_chunk(p) implies #[trigger] self.spec_blocked_at(q)
            == before.spec_blocked_at(q) by {
            crate::grid::lemma_chunk_round_trip(q);
        }
    }
}

/// What a move request comes to.
#[derive(Clone, Copy, Debug, PartialEq, Eq, Structural)]
pub enum MoveOutcome {
    /// The player stays: still cooling down, or the target tile is blocked.
    Stay,
    /// The player steps onto this tile, and its cooldown restarts.
    MoveTo(IVec2),
}

/// The outcome of a move request by `dir` from `pos`.
pub open spec fn spec_decide_move(
    occ: Occupancy,
    pos: IVec2,
    dir: IVec2,
    cooldown_finished: bool,
) -> Result<MoveOutcome, OccupancyError> {
    if !cooldown_finished {
        Ok(MoveOutcome::Stay)
    } else {
        let target = pos.spec_add(dir);
        match occ.spec_blocked_at(target) {
            Err(e) => Err(e),
            Ok(true) => Ok(MoveOutcome::Stay),
            Ok(false) => Ok(MoveOutcome::MoveTo(target)),
        }
    }
}

/// A player on `pos` asks to move by `dir`. While its cooldown runs it stays.
/// Otherwise the target tile is looked up: a missing chunk or chunk data is an
/// error, a blocked tile keeps the player where it is, and a free tile is where
/// it moves.
pub fn decide_move(occ: &Occupancy, pos: IVec2, dir: IVec2, cooldown_finished: bool) -> (r: Result<
    MoveOutcome,
    OccupancyError,
>)
    requires
        occ.wf(),
    ensures
        r == spec_decide_move(*occ, pos, dir, cooldown_finished),
{
    if !cooldown_finished {
        return Ok(MoveOutcome::Stay);
    }
    let target = pos.add(dir);
    match occ.blocked_at(target) {
        Err(e) => Err(e),
        Ok(true) => Ok(MoveOutcome::Stay),
        Ok(false) => Ok(MoveOutcome::MoveTo(target)),
    }
}

/// Law: a player never moves onto a blocked tile, and when it moves it moves
/// by exactly the requested step.
pub proof fn lemma_moves_only_to_free_tiles(
    occ: Occupancy,
    pos: IVec2,
    dir: IVec2,
    cooldown_finished: bool,
)
    ensures
        spec_decide_move(occ, pos, dir, cooldown_finished) matches Ok(MoveOutcome::MoveTo(t)) ==> {
            &&& t == pos.spec_add(dir)
            &&& cooldown_finished
            &&& occ.spec_blocked_at(t) == Ok::<bool, OccupancyError>(false)
        },
{
}


/// A direct input moves the player by `direction`, each coordinate wrapping
/// around on overflow.
pub fn handle_player_input(pos: IVec2, direction: IVec2) -> (r: IVec2)
    ensures
        r == pos.spec_add(direction),
{
    pos.add(direction)
}

} // verus!
