//! Integer tile coordinates, chunk arithmetic and map keys for positions.
use vstd::prelude::*;

verus! {

/// Width and height of a map chunk, in tiles.
pub const CHUNK_SIZE: i32 = 16;

/// Number of tiles in one chunk.
pub const CHUNK_TILES_COUNT: usize = 256;

/// A tile position or offset on the map grid.
#[derive(Clone, Copy, Debug, PartialEq, Eq, Structural)]
pub struct IVec2 {
    pub x: i32,
    pub y: i32,
}

impl IVec2 {
    /// Builds a vector from its two components.
    pub fn new(x: i32, y: i32) -> (r: IVec2)
        ensures
            r.x == x,
            r.y == y,
    {
        IVec2 { x, y }
    }

    /// Component-wise sum; each component wraps around on overflow.
    pub open spec fn spec_add(self, o: IVec2) -> IVec2 {
        IVec2 { x: self.x.wrapping_add(o.x), y: self.y.wrapping_add(o.y) }
    }

    /// Component-wise sum; each component wraps around on overflow.
    pub fn add(self, o: IVec2) -> (r: IVec2)
        ensures
            r == self.spec_add(o),
    {
        IVec2 { x: self.x.wrapping_add(o.x), y: self.y.wrapping_add(o.y) }
    }

    /// Component-wise difference; each component wraps around on overflow.
    pub open spec fn spec_sub(self, o: IVec2) -> IVec2 {
        IVec2 { x: self.x.wrapping_sub(o.x), y: self.y.wrapping_sub(o.y) }
    }

    /// Component-wise difference; each component wraps around on overflow.
    pub fn sub(self, o: IVec2) -> (r: IVec2)
        ensures
            r == self.spec_sub(o),
    {
        IVec2 { x: self.x.wrapping_sub(o.x), y: self.y.wrapping_sub(o.y) }
    }
}

/// The key under which a position is stored in the maps of this library.
pub open spec fn spec_pos_key(p: IVec2) -> u64 {
    ((p.x + 2147483648) * 4294967296 + (p.y + 2147483648)) as u64
}

/// Computes the map key of a position.
pub fn pos_key(p: IVec2) -> (k: u64)
    ensures
        k == spec_pos_key(p),
{
    let kx: u64 = (p.x as i64 + 2147483648i64) as u64;
    let ky: u64 = (p.y as i64 + 2147483648i64) as u64;
    assert(kx * 4294967296 <= 18446744069414584320) by (nonlinear_arith)
        requires
            kx <= 4294967295,
    ;
    kx * 4294967296u64 + ky
}

/// Two positions share a key only if they are equal.
pub proof fn lemma_pos_key_injective(p: IVec2, q: IVec2)
    ensures
        spec_pos_key(p) == spec_pos_key(q) <==> p == q,
{
    let a: int = p.x + 2147483648;
    let b: int = p.y + 2147483648;
    let c: int = q.x + 2147483648;
    let d: int = q.y + 2147483648;
    assert(0 <= a * 4294967296 + b <= 18446744073709551615) by (nonlinear_arith)
        requires
            0 <= a < 4294967296,
            0 <= b < 4294967296,
    ;
    assert(0 <= c * 4294967296 + d <= 18446744073709551615) by (nonlinear_arith)
        requires
            0 <= c < 4294967296,
            0 <= d < 4294967296,
    ;
    assert(a * 4294967296 + b == c * 4294967296 + d ==> a == c && b == d) by (nonlinear_arith)
        requires
            0 <= a < 4294967296,
            0 <= b < 4294967296,
            0 <= c < 4294967296,
            0 <= d < 4294967296,
    ;
}

/// Chunk that holds the tile at `p`: each coordinate divided by the chunk size, rounded down.
pub open spec fn spec_xy_chunk(p: IVec2) -> IVec2 {
    IVec2 { x: (p.x / CHUNK_SIZE) as i32, y: (p.y / CHUNK_SIZE) as i32 }
}

/// Index of the tile at `p` in its chunk's tile array: row by row, from the chunk's origin.
pub open spec fn spec_xy_index_chunk(p: IVec2) -> int {
    (p.y % CHUNK_SIZE) * CHUNK_SIZE + (p.x % CHUNK_SIZE)
}

/// Computes the chunk coordinate of the chunk that holds the tile at `p`.
pub fn xy_chunk(p: IVec2) -> (c: IVec2)
    ensures
        c == spec_xy_chunk(p),
{
    let cx = p.x.checked_div_euclid(CHUNK_SIZE).unwrap();
    let cy = p.y.checked_div_euclid(CHUNK_SIZE).unwrap();
    IVec2 { x: cx, y: cy }
}

/// Computes the index of the tile at `p` in its chunk.
pub fn xy_index_chunk(p: IVec2) -> (i: usize)
    ensures
        i == spec_xy_index_chunk(p),
        i < CHUNK_TILES_COUNT,
{
    let lx = p.x.checked_rem_euclid(CHUNK_SIZE).unwrap();
    let ly = p.y.checked_rem_euclid(CHUNK_SIZE).unwrap();
    (ly as usize) * 16 + (lx as usize)
}

/// World position of the tile stored at index `idx` of the chunk at `crd`.
pub open spec fn spec_tile_world_pos(crd: IVec2, idx: int) -> IVec2 {
    IVec2 {
        x: (crd.x * CHUNK_SIZE + idx % (CHUNK_SIZE as int)) as i32,
        y: (crd.y * CHUNK_SIZE + idx / (CHUNK_SIZE as int)) as i32,
    }
}

/// Computes the world position of the tile stored at index `idx` of the chunk at `crd`.
pub fn tile_world_pos(crd: IVec2, idx: usize) -> (p: IVec2)
    requires
        idx < CHUNK_TILES_COUNT,
        i32::MIN <= crd.x * CHUNK_SIZE,
        crd.x * CHUNK_SIZE + CHUNK_SIZE <= i32::MAX + 1,
        i32::MIN <= crd.y * CHUNK_SIZE,
        crd.y * CHUNK_SIZE + CHUNK_SIZE <= i32::MAX + 1,
    ensures
        p == spec_tile_world_pos(crd, idx as int),
{
    let lx = (idx % 16) as i32;
    let ly = (idx / 16) as i32;
    IVec2 { x: crd.x * CHUNK_SIZE + lx, y: crd.y * CHUNK_SIZE + ly }
}

/// A tile's chunk and its index in that chunk give back its world position.
pub proof fn lemma_chunk_round_trip(p: IVec2)
    ensures
        0 <= spec_xy_index_chunk(p) < CHUNK_TILES_COUNT,
        spec_tile_world_pos(spec_xy_chunk(p), spec_xy_index_chunk(p)) == p,
{
    let lx = p.x % 16;
    let ly = p.y % 16;
    let idx = ly * 16 + lx;
    assert(idx % 16 == lx && idx / 16 == ly) by (nonlinear_arith)
        requires
            0 <= lx < 16,
            0 <= ly < 16,
            idx == ly * 16 + lx,
    ;
}

} // verus!
