//! The test map: a square of floor chunks and a fixed set of wall shapes, and
//! the tile registry that numbers tile kinds.
use crate::grid::{IVec2, CHUNK_TILES_COUNT};
use vstd::prelude::*;

verus! {

/// Chunks per side of the test map.
pub const MAP_CHUNKS: i32 = 3;

/// A straight line of five walls along y = 2.
pub open spec fn wall_line() -> Seq<IVec2> {
    Seq::new(5, |i: int| IVec2 { x: i as i32, y: 2 })
}

/// The upright of the L: x = 0, y from 4 to 7.
pub open spec fn wall_l_down() -> Seq<IVec2> {
    Seq::new(4, |i: int| IVec2 { x: 0, y: (4 + i) as i32 })
}

/// The foot of the L: y = 7, x from 1 to 3.
pub open spec fn wall_l_across() -> Seq<IVec2> {
    Seq::new(3, |i: int| IVec2 { x: (1 + i) as i32, y: 7 })
}

/// The top and bottom of the box, x from 6 to 9, row 4 then row 8 for each x.
pub open spec fn wall_box_rows() -> Seq<IVec2> {
    Seq::new(
        8,
        |i: int| IVec2 { x: (6 + i / 2) as i32, y: if i % 2 == 0 { 4 } else { 8 } },
    )
}

/// The sides of the box, y from 4 to 8, column 6 then column 9 for each y.
pub open spec fn wall_box_cols() -> Seq<IVec2> {
    Seq::new(
        10,
        |i: int| IVec2 { x: if i % 2 == 0 { 6 } else { 9 }, y: (4 + i / 2) as i32 },
    )
}

/// A zigzag from (0, 10) to (0, 14), alternating between columns 0 and 1.
pub open spec fn wall_zigzag() -> Seq<IVec2> {
    Seq::new(5, |i: int| IVec2 { x: (i % 2) as i32, y: (10 + i) as i32 })
}

/// The positions of the test walls, in spawn order: a straight line, an L, a
/// closed box (its corners listed twice) and a zigzag.
pub open spec fn spec_test_walls() -> Seq<IVec2> {
    wall_line() + wall_l_down() + wall_l_across() + wall_box_rows() + wall_box_cols() + wall_zigzag()
}

/// Lists the positions of the test walls.
pub fn test_wall_positions() -> (walls: Vec<IVec2>)
    ensures
        walls@ == spec_test_walls(),
{
    let mut walls: Vec<IVec2> = Vec::new();

    let mut x: i32 = 0;
    while x < 5
        invariant
            0 <= x <= 5,
            walls@ == wall_line().take(x as int),
        decreases 5 - x,
    {
        walls.push(IVec2 { x, y: 2 });
        x = x + 1;
        assert(walls@ =~= wall_line().take(x as int));
    }
    assert(wall_line().take(5) =~= wall_line());
    let ghost w0 = walls@;

    let mut y: i32 = 4;
    while y < 8
        invariant
            4 <= y <= 8,
            walls@ == w0 + wall_l_down().take(y - 4),
        decreases 8 - y,
    {
        walls.push(IVec2 { x: 0, y });
        y = y + 1;
        assert(walls@ =~= w0 + wall_l_down().take(y - 4));
    }
    assert(wall_l_down().take(4) =~= wall_l_down());
    let ghost w1 = walls@;

    let mut x: i32 = 1;
    while x < 4
        invariant
            1 <= x <= 4,
            walls@ == w1 + wall_l_across().take(x - 1),
        decreases 4 - x,
    {
        walls.push(IVec2 { x, y: 7 });
        x = x + 1;
        assert(walls@ =~= w1 + wall_l_across().take(x - 1));
    }
    assert(wall_l_across().take(3) =~= wall_l_across());
    let ghost w2 = walls@;

    let mut x: i32 = 6;
    while x < 10
        invariant
            6 <= x <= 10,
            walls@ == w2 + wall_box_rows().take(2 * (x - 6)),
        decreases 10 - x,
    {
        walls.push(IVec2 { x, y: 4 });
        walls.push(IVec2 { x, y: 8 });
        x = x + 1;
        assert(walls@ =~= w2 + wall_box_rows().take(2 * (x - 6)));
    }
    assert(wall_box_rows().take(8) =~= wall_box_rows());
    let ghost w3 = walls@;

    let mut y: i32 = 4;
    while y <= 8
        invariant
            4 <= y <= 9,
            walls@ == w3 + wall_box_cols().take(2 * (y - 4)),
        decreases 9 - y,
    {
        walls.push(IVec2 { x: 6, y });
        walls.push(IVec2 { x: 9, y });
        y = y + 1;
        assert(walls@ =~= w3 + wall_box_cols().take(2 * (y - 4)));
    }
    assert(wall_box_cols().take(10) =~= wall_box_cols());
    let ghost w4 = walls@;

    let mut zx: i32 = 0;
    let mut zy: i32 = 10;
    while zy < 15
        invariant
            10 <= zy <= 15,
            zx == (zy - 10) % 2,
            walls@ == w4 + wall_zigzag().take(zy - 10),
        decreases 15 - zy,
    {
        walls.push(IVec2 { x: zx, y: zy });
        zx = zx + if zy % 2 == 0 {
            1
        } else {
            -1
        };
        zy = zy + 1;
        assert(walls@ =~= w4 + wall_zigzag().take(zy - 10));
    }
    assert(wall_zigzag().take(5) =~= wall_zigzag());
    assert(walls@ =~= spec_test_walls());
    walls
}

/// One chunk of map tiles: the tile kind of each tile, by tile index.
pub struct TileChunk {
    pub tiles: Vec<u8>,
    pub crd: IVec2,
}

/// The chunk coordinates of the test map, row by row.
pub open spec fn spec_test_chunk_coords() -> Seq<IVec2> {
    Seq::new(9, |i: int| IVec2 { x: (i % 3) as i32, y: (i / 3) as i32 })
}

/// The test map: a 3x3 square of chunks, row by row from the origin, each
/// filled with tile kind `floor`.
pub fn test_map_chunks(floor: u8) -> (chunks: Vec<TileChunk>)
    ensures
        chunks@.len() == 9,
        forall|i: int|
            0 <= i < 9 ==> {
                &&& #[trigger] chunks@[i].crd == spec_test_chunk_coords()[i]
                &&& chunks@[i].tiles@ == Seq::new(CHUNK_TILES_COUNT as nat, |_j: int| floor)
            },
{
    let mut chunks: Vec<TileChunk> = Vec::new();
    let mut cy: i32 = 0;
    while cy < MAP_CHUNKS
        invariant
            0 <= cy <= 3,
            chunks@.len() == 3 * cy,
            forall|i: int|
                0 <= i < 3 * cy ==> {
                    &&& #[trigger] chunks@[i].crd == spec_test_chunk_coords()[i]
                    &&& chunks@[i].tiles@ == Seq::new(CHUNK_TILES_COUNT as nat, |_j: int| floor)
                },
        decreases 3 - cy,
    {
        let mut cx: i32 = 0;
        while cx < MAP_CHUNKS
            invariant
                0 <= cy < 3,
                0 <= cx <= 3,
                chunks@.len() == 3 * cy + cx,
                forall|i: int|
                    0 <= i < 3 * cy + cx ==> {
                        &&& #[trigger] chunks@[i].crd == spec_test_chunk_coords()[i]
                        &&& chunks@[i].tiles@ == Seq::new(
                            CHUNK_TILES_COUNT as nat,
                            |_j: int| floor,
                        )
                    },
            decreases 3 - cx,
        {
            let mut tiles: Vec<u8> = Vec::new();
            let mut t: usize = 0;
            while t < CHUNK_TILES_COUNT
                invariant
                    0 <= t <= CHUNK_TILES_COUNT,
                    tiles@ == Seq::new(t as nat, |_j: int| floor),
                decreases CHUNK_TILES_COUNT - t,
            {
                tiles.push(floor);
                t = t + 1;
                assert(tiles@ =~= Seq::new(t as nat, |_j: int| floor));
            }
            let ghost n = 3 * cy + cx;
            chunks.push(TileChunk { tiles, crd: IVec2 { x: cx, y: cy } });
            assert(spec_test_chunk_coords()[n] == IVec2 { x: cx, y: cy });
            cx = cx + 1;
        }
        cy = cy + 1;
    }
    chunks
}

} // verus!
