//! Wall sprites: which neighbouring tiles hold walls, kept as a 4-bit mask per
//! wall, and the four corner pieces that a mask is drawn with.
use crate::grid::{IVec2, pos_key, spec_pos_key, lemma_pos_key_injective};
use std::collections::HashMap;
use vstd::prelude::*;

verus! {

broadcast use {vstd::std_specs::hash::group_hash_axioms, vstd::std_specs::hash::axiom_random_state_builds_valid_hashers, vstd::std_specs::hash::axiom_u64_obeys_hash_table_key_model};

/// Mask bit: a wall stands to the west.
pub const MASK_W: u8 = 1;

/// Mask bit: a wall stands to the east.
pub const MASK_E: u8 = 2;

/// Mask bit: a wall stands to the south.
pub const MASK_S: u8 = 4;

/// Mask bit: a wall stands to the north.
pub const MASK_N: u8 = 8;

/// Offset of the `d`-th neighbour, in the order west, east, south, north.
pub open spec fn neighbor_offset(d: int) -> IVec2 {
    if d == 0 {
        IVec2 { x: -1i32, y: 0 }
    } else if d == 1 {
        IVec2 { x: 1, y: 0 }
    } else if d == 2 {
        IVec2 { x: 0, y: -1i32 }
    } else {
        IVec2 { x: 0, y: 1 }
    }
}

/// Mask bit that a wall sets for its `d`-th neighbour.
pub open spec fn self_mask(d: int) -> u8 {
    if d == 0 {
        MASK_W
    } else if d == 1 {
        MASK_E
    } else if d == 2 {
        MASK_S
    } else {
        MASK_N
    }
}

/// Mask bit that the `d`-th neighbour sets for the wall: the opposite direction.
pub open spec fn opposite_mask(d: int) -> u8 {
    if d == 0 {
        MASK_E
    } else if d == 1 {
        MASK_W
    } else if d == 2 {
        MASK_N
    } else {
        MASK_S
    }
}

/// The direction that points back: west and east swap, south and north swap.
pub open spec fn opposite_dir(d: int) -> int {
    if d == 0 {
        1
    } else if d == 1 {
        0
    } else if d == 2 {
        3
    } else {
        2
    }
}

/// The `d`-th neighbour entry: its offset, the wall's own bit, the neighbour's bit.
fn neighbor(d: usize) -> (r: (IVec2, u8, u8))
    requires
        d < 4,
    ensures
        r.0 == neighbor_offset(d as int),
        r.1 == self_mask(d as int),
        r.2 == opposite_mask(d as int),
{
    if d == 0 {
        (IVec2 { x: -1, y: 0 }, MASK_W, MASK_E)
    } else if d == 1 {
        (IVec2 { x: 1, y: 0 }, MASK_E, MASK_W)
    } else if d == 2 {
        (IVec2 { x: 0, y: -1 }, MASK_S, MASK_N)
    } else {
        (IVec2 { x: 0, y: 1 }, MASK_N, MASK_S)
    }
}

/// Key of the `d`-th neighbouring tile of `p`.
pub open spec fn nbr_key(p: IVec2, d: int) -> u64 {
    spec_pos_key(p.spec_add(neighbor_offset(d)))
}

/// The bit for direction `d` if a wall stands there in `positions`, else 0.
pub open spec fn dir_bit(positions: Map<u64, u64>, p: IVec2, d: int) -> u8 {
    if positions.contains_key(nbr_key(p, d)) {
        self_mask(d)
    } else {
        0
    }
}

/// The mask that a wall at `p` has when `positions` holds every wall: one bit
/// for each of the four neighbouring tiles that holds a wall.
pub open spec fn neighbor_bits(positions: Map<u64, u64>, p: IVec2) -> u8 {
    (((0u8 | dir_bit(positions, p, 0)) | dir_bit(positions, p, 1)) | dir_bit(positions, p, 2))
        | dir_bit(positions, p, 3)
}

/// Masks after a wall `e` at `p` has looked at its first `d` neighbours: for each
/// neighbour found, the wall sets its own bit and the neighbour sets the opposite bit.
pub open spec fn masks_after_add(
    masks: Map<u64, u8>,
    positions: Map<u64, u64>,
    e: u64,
    p: IVec2,
    d: nat,
) -> Map<u64, u8>
    decreases d,
{
    if d == 0 {
        masks
    } else {
        let m = masks_after_add(masks, positions, e, p, (d - 1) as nat);
        let k = nbr_key(p, d - 1);
        if positions.contains_key(k) {
            let n = positions[k];
            let m1 = m.insert(e, m[e] | self_mask(d - 1));
            if m1.contains_key(n) {
                m1.insert(n, m1[n] | opposite_mask(d - 1))
            } else {
                m1
            }
        } else {
            m
        }
    }
}

/// Masks after the wall at `p` left and its first `d` neighbours cleared the bit
/// that pointed at it.
pub open spec fn masks_after_remove(
    masks: Map<u64, u8>,
    positions: Map<u64, u64>,
    p: IVec2,
    d: nat,
) -> Map<u64, u8>
    decreases d,
{
    if d == 0 {
        masks
    } else {
        let m = masks_after_remove(masks, positions, p, (d - 1) as nat);
        let k = nbr_key(p, d - 1);
        if positions.contains_key(k) && m.contains_key(positions[k]) {
            let n = positions[k];
            m.insert(n, m[n] & !opposite_mask(d - 1))
        } else {
            m
        }
    }
}

/// The walls of the map: which wall stands on each tile, and each wall's neighbour mask.
pub struct WallLayout {
    positions: HashMap<u64, u64>,
    masks: HashMap<u64, u8>,
}

impl WallLayout {
    /// Wall entity on each tile, keyed by the tile's position key.
    pub closed spec fn positions(&self) -> Map<u64, u64> {
        self.positions@
    }

    /// Neighbour mask of each wall entity.
    pub closed spec fn masks(&self) -> Map<u64, u8> {
        self.masks@
    }

    /// A layout holds every wall once, and each wall's mask names exactly the
    /// neighbouring tiles that hold a wall.
    pub open spec fn consistent(&self) -> bool {
        walls_consistent(self.positions(), self.masks())
    }

    /// A layout with no walls.
    pub fn new() -> (r: WallLayout)
        ensures
            r.positions() == Map::<u64, u64>::empty(),
            r.masks() == Map::<u64, u8>::empty(),
            r.consistent(),
    {
        WallLayout { positions: HashMap::new(), masks: HashMap::new() }
    }

    /// The wall standing on tile `p`, if any.
    pub fn wall_at(&self, p: IVec2) -> (r: Option<u64>)
        ensures
            r == (if self.positions().contains_key(spec_pos_key(p)) {
                Some(self.positions()[spec_pos_key(p)])
            } else {
                None
            }),
    {
        match self.positions.get(&pos_key(p)) {
            Some(e) => Some(*e),
            None => None,
        }
    }

    /// The neighbour mask of wall `e`, if it is known.
    pub fn mask_of(&self, e: u64) -> (r: Option<u8>)
        ensures
            r == (if self.masks().contains_key(e) {
                Some(self.masks()[e])
            } else {
                None
            }),
    {
        match self.masks.get(&e) {
            Some(m) => Some(*m),
            None => None,
        }
    }

    /// A wall `e` with mask `initial_mask` appears at `p`: it is recorded on that
    /// tile, and for every neighbouring tile that holds a wall, `e` sets the bit of
    /// that direction and the neighbour sets the bit of the opposite direction.
    pub fn on_wall_added(&mut self, e: u64, p: IVec2, initial_mask: u8)
        ensures
            final(self).positions() == old(self).positions().insert(spec_pos_key(p), e),
            final(self).masks() == masks_after_add(
                old(self).masks().insert(e, initial_mask),
                old(self).positions().insert(spec_pos_key(p), e),
                e,
                p,
                4,
            ),
            old(self).consistent() && !old(self).positions().contains_key(spec_pos_key(p)) && (
            forall|k: u64| #[trigger]
                old(self).positions().contains_key(k) ==> old(self).positions()[k] != e)
                && initial_mask == 0 ==> final(self).consistent(),
    {
        let kp = pos_key(p);
        self.positions.insert(kp, e);
        self.masks.insert(e, initial_mask);
        let ghost m0 = self.masks@;
        let mut d: usize = 0;
        while d < 4
            invariant
                0 <= d <= 4,
                self.positions@ == old(self).positions@.insert(spec_pos_key(p), e),
                m0 == old(self).masks@.insert(e, initial_mask),
                self.masks@ == masks_after_add(m0, self.positions@, e, p, d as nat),
                self.masks@.contains_key(e),
            decreases 4 - d,
        {
            let (offset, mask, opposite) = neighbor(d);
            let k = pos_key(p.add(offset));
            match self.positions.get(&k) {
                Some(n) => {
                    let n = *n;
                    let cur = *self.masks.get(&e).unwrap();
                    self.masks.insert(e, cur | mask);
                    match self.masks.get(&n) {
                        Some(nm) => {
                            let nm = *nm;
                            self.masks.insert(n, nm | opposite);
                        },
                        None => {},
                    }
                },
                None => {},
            }
            d = d + 1;
        }
        proof {
            if old(self).consistent() && !old(self).positions().contains_key(spec_pos_key(p)) && (
            forall|k: u64| #[trigger]
                old(self).positions().contains_key(k) ==> old(self).positions()[k] != e)
                && initial_mask == 0 {
                lemma_wall_added_keeps_masks(old(self).positions(), old(self).masks(), e, p);
            }
        }
    }

    /// The wall at `p` goes away: the tile is cleared, every neighbouring wall
    /// clears the bit that pointed at `p`, and the wall `e` loses its mask.
    pub fn on_wall_removed(&mut self, e: u64, p: IVec2)
        ensures
            final(self).positions() == old(self).positions().remove(spec_pos_key(p)),
            final(self).masks() == masks_after_remove(
                old(self).masks(),
                old(self).positions().remove(spec_pos_key(p)),
                p,
                4,
            ).remove(e),
            old(self).consistent() && old(self).positions().contains_key(spec_pos_key(p))
                && old(self).positions()[spec_pos_key(p)] == e ==> final(self).consistent(),
    {
        let kp = pos_key(p);
        self.positions.remove(&kp);
        let ghost m0 = self.masks@;
        let mut d: usize = 0;
        while d < 4
            invariant
                0 <= d <= 4,
                self.positions@ == old(self).positions@.remove(spec_pos_key(p)),
                m0 == old(self).masks@,
                self.masks@ == masks_after_remove(m0, self.positions@, p, d as nat),
            decreases 4 - d,
        {
            let (offset, _mask, opposite) = neighbor(d);
            let k = pos_key(p.add(offset));
            match self.positions.get(&k) {
                Some(n) => {
                    let n = *n;
                    match self.masks.get(&n) {
                        Some(nm) => {
                            let nm = *nm;
                            self.masks.insert(n, nm & !opposite);
                        },
                        None => {},
                    }
                },
                None => {},
            }
            d = d + 1;
        }
        self.masks.remove(&e);
        proof {
            if old(self).consistent() && old(self).positions().contains_key(spec_pos_key(p))
                && old(self).positions()[spec_pos_key(p)] == e {
                lemma_wall_removed_keeps_masks(old(self).positions(), old(self).masks(), e, p);
            }
        }
    }
}


/// The mask of a wall at `p` after it has looked at its first `d` neighbours,
/// starting from `m`.
pub open spec fn mask_chain(m: u8, positions: Map<u64, u64>, p: IVec2, d: nat) -> u8
    decreases d,
{
    if d == 0 {
        m
    } else {
        let prev = mask_chain(m, positions, p, (d - 1) as nat);
        if positions.contains_key(nbr_key(p, d - 1)) {
            prev | self_mask(d - 1)
        } else {
            prev
        }
    }
}

proof fn lemma_or_zero(m: u8)
    ensures
        m | 0 == m,
{
    assert(m | 0 == m) by (bit_vector);
}

proof fn lemma_chain_is_neighbor_bits(positions: Map<u64, u64>, p: IVec2)
    ensures
        mask_chain(0, positions, p, 4) == neighbor_bits(positions, p),
{
    reveal_with_fuel(mask_chain, 5);
    lemma_or_zero(0);
    lemma_or_zero(mask_chain(0, positions, p, 1));
    lemma_or_zero(mask_chain(0, positions, p, 2));
    lemma_or_zero(mask_chain(0, positions, p, 3));
    lemma_or_zero(0u8 | dir_bit(positions, p, 0));
    lemma_or_zero((0u8 | dir_bit(positions, p, 0)) | dir_bit(positions, p, 1));
    lemma_or_zero(((0u8 | dir_bit(positions, p, 0)) | dir_bit(positions, p, 1)) | dir_bit(positions, p, 2));
}

/// Stepping to a neighbour and back returns to the start, a neighbour is never
/// the tile itself, and the four neighbours are distinct.
proof fn lemma_neighbor_geometry(p: IVec2)
    ensures
        forall|d: int|
            0 <= d < 4 ==> #[trigger] p.spec_add(neighbor_offset(d)) != p && p.spec_add(
                neighbor_offset(d),
            ).spec_add(neighbor_offset(opposite_dir(d))) == p,
        forall|i: int, j: int|
            0 <= i < 4 && 0 <= j < 4 && i != j ==> #[trigger] p.spec_add(neighbor_offset(i))
                != #[trigger] p.spec_add(neighbor_offset(j)),
        forall|q: IVec2, d: int|
            0 <= d < 4 ==> (#[trigger] q.spec_add(neighbor_offset(d)) == p <==> q == p.spec_add(
                neighbor_offset(opposite_dir(d)),
            )),
{
}

/// Walls whose position maps and mask maps are consistent (see `WallLayout::consistent`).
pub open spec fn walls_consistent(positions: Map<u64, u64>, masks: Map<u64, u8>) -> bool {
    &&& forall|p: IVec2| #[trigger]
        positions.contains_key(spec_pos_key(p)) ==> {
            &&& masks.contains_key(positions[spec_pos_key(p)])
            &&& masks[positions[spec_pos_key(p)]] == neighbor_bits(positions, p)
        }
    &&& forall|p: IVec2, q: IVec2|
        #![trigger positions.contains_key(spec_pos_key(p)), positions.contains_key(spec_pos_key(q))]
        positions.contains_key(spec_pos_key(p)) && positions.contains_key(spec_pos_key(q))
            && positions[spec_pos_key(p)] == positions[spec_pos_key(q)] ==> p == q
    &&& forall|k: u64| #[trigger] positions.contains_key(k) ==> exists|p: IVec2| spec_pos_key(p) == k
}


proof fn lemma_chain_slots(a: u8, b: u8, c: u8, d: u8, x: u8)
    ensures
        0u8 | x == x,
        ((((0u8 | a) | b) | c) | d) | x == (((0u8 | (a | x)) | b) | c) | d,
        ((((0u8 | a) | b) | c) | d) | x == (((0u8 | a) | (b | x)) | c) | d,
        ((((0u8 | a) | b) | c) | d) | x == (((0u8 | a) | b) | (c | x)) | d,
        ((((0u8 | a) | b) | c) | d) | x == (((0u8 | a) | b) | c) | (d | x),
{
    assert(0u8 | x == x) by (bit_vector);
    assert(((((0u8 | a) | b) | c) | d) | x == (((0u8 | (a | x)) | b) | c) | d) by (bit_vector);
    assert(((((0u8 | a) | b) | c) | d) | x == (((0u8 | a) | (b | x)) | c) | d) by (bit_vector);
    assert(((((0u8 | a) | b) | c) | d) | x == (((0u8 | a) | b) | (c | x)) | d) by (bit_vector);
    assert(((((0u8 | a) | b) | c) | d) | x == (((0u8 | a) | b) | c) | (d | x)) by (bit_vector);
}

proof fn lemma_chain_clear(a: u8, b: u8, c: u8, d: u8)
    requires
        a == 0 || a == 1,
        b == 0 || b == 2,
        c == 0 || c == 4,
        d == 0 || d == 8,
    ensures
        a == 1 ==> ((((0u8 | a) | b) | c) | d) & !1u8 == (((0u8 | 0u8) | b) | c) | d,
        b == 2 ==> ((((0u8 | a) | b) | c) | d) & !2u8 == (((0u8 | a) | 0u8) | c) | d,
        c == 4 ==> ((((0u8 | a) | b) | c) | d) & !4u8 == (((0u8 | a) | b) | 0u8) | d,
        d == 8 ==> ((((0u8 | a) | b) | c) | d) & !8u8 == (((0u8 | a) | b) | c) | 0u8,
{
    assert(a == 1 ==> ((((0u8 | a) | b) | c) | d) & !1u8 == (((0u8 | 0u8) | b) | c) | d)
        by (bit_vector)
        requires
            b == 0 || b == 2,
            c == 0 || c == 4,
            d == 0 || d == 8,
    ;
    assert(b == 2 ==> ((((0u8 | a) | b) | c) | d) & !2u8 == (((0u8 | a) | 0u8) | c) | d)
        by (bit_vector)
        requires
            a == 0 || a == 1,
            c == 0 || c == 4,
            d == 0 || d == 8,
    ;
    assert(c == 4 ==> ((((0u8 | a) | b) | c) | d) & !4u8 == (((0u8 | a) | b) | 0u8) | d)
        by (bit_vector)
        requires
            a == 0 || a == 1,
            b == 0 || b == 2,
            d == 0 || d == 8,
    ;
    assert(d == 8 ==> ((((0u8 | a) | b) | c) | d) & !8u8 == (((0u8 | a) | b) | c) | 0u8)
        by (bit_vector)
        requires
            a == 0 || a == 1,
            b == 0 || b == 2,
            c == 0 || c == 4,
    ;
}

/// What the first `d` steps of an addition do to the masks, when the new wall
/// `e` is none of its neighbours and its neighbours are distinct walls.
proof fn lemma_add_steps(m0: Map<u64, u8>, ps: Map<u64, u64>, e: u64, p: IVec2, d: nat)
    requires
        d <= 4,
        m0.contains_key(e),
        forall|j: int|
            0 <= j < 4 && #[trigger] ps.contains_key(nbr_key(p, j)) ==> ps[nbr_key(p, j)] != e
                && m0.contains_key(ps[nbr_key(p, j)]),
        forall|i: int, j: int|
            0 <= i < 4 && 0 <= j < 4 && i != j && #[trigger] ps.contains_key(nbr_key(p, i))
                && #[trigger] ps.contains_key(nbr_key(p, j)) ==> ps[nbr_key(p, i)] != ps[nbr_key(
                p,
                j,
            )],
    ensures
        masks_after_add(m0, ps, e, p, d).dom() == m0.dom(),
        masks_after_add(m0, ps, e, p, d)[e] == mask_chain(m0[e], ps, p, d),
        forall|j: int|
            0 <= j < d && #[trigger] ps.contains_key(nbr_key(p, j)) ==> masks_after_add(
                m0,
                ps,
                e,
                p,
                d,
            )[ps[nbr_key(p, j)]] == m0[ps[nbr_key(p, j)]] | opposite_mask(j),
        forall|x: u64|
            x != e && #[trigger] m0.contains_key(x) && (forall|j: int|
                0 <= j < d && #[trigger] ps.contains_key(nbr_key(p, j)) ==> ps[nbr_key(p, j)]
                    != x) ==> masks_after_add(m0, ps, e, p, d)[x] == m0[x],
    decreases d,
{
    if d > 0 {
        lemma_add_steps(m0, ps, e, p, (d - 1) as nat);
        let prev = masks_after_add(m0, ps, e, p, (d - 1) as nat);
        let k = nbr_key(p, d - 1);
        let r = masks_after_add(m0, ps, e, p, d);
        if ps.contains_key(k) {
            assert(r.dom() =~= m0.dom());
        } else {
            assert(r == prev);
        }
    }
}

/// What the first `d` steps of a removal do to the masks, when the neighbours
/// are distinct walls.
proof fn lemma_remove_steps(m: Map<u64, u8>, ps: Map<u64, u64>, p: IVec2, d: nat)
    requires
        d <= 4,
        forall|i: int, j: int|
            0 <= i < 4 && 0 <= j < 4 && i != j && #[trigger] ps.contains_key(nbr_key(p, i))
                && #[trigger] ps.contains_key(nbr_key(p, j)) ==> ps[nbr_key(p, i)] != ps[nbr_key(
                p,
                j,
            )],
    ensures
        masks_after_remove(m, ps, p, d).dom() == m.dom(),
        forall|j: int|
            0 <= j < d && #[trigger] ps.contains_key(nbr_key(p, j)) && m.contains_key(
                ps[nbr_key(p, j)],
            ) ==> masks_after_remove(m, ps, p, d)[ps[nbr_key(p, j)]] == m[ps[nbr_key(p, j)]]
                & !opposite_mask(j),
        forall|x: u64|
            #[trigger] m.contains_key(x) && (forall|j: int|
                0 <= j < d && #[trigger] ps.contains_key(nbr_key(p, j)) ==> ps[nbr_key(p, j)]
                    != x) ==> masks_after_remove(m, ps, p, d)[x] == m[x],
    decreases d,
{
    if d > 0 {
        lemma_remove_steps(m, ps, p, (d - 1) as nat);
        let prev = masks_after_remove(m, ps, p, (d - 1) as nat);
        let k = nbr_key(p, d - 1);
        let r = masks_after_remove(m, ps, p, d);
        if ps.contains_key(k) && prev.contains_key(ps[k]) {
            assert(r.dom() =~= m.dom());
        } else {
            assert(r == prev);
        }
    }
}

/// Law: adding a wall on a free tile, under a fresh entity with an empty mask,
/// keeps every wall's mask equal to the set of its neighbouring walls.
#[verifier::spinoff_prover]
pub proof fn lemma_wall_added_keeps_masks(
    positions: Map<u64, u64>,
    masks: Map<u64, u8>,
    e: u64,
    p: IVec2,
)
    requires
        walls_consistent(positions, masks),
        !positions.contains_key(spec_pos_key(p)),
        forall|k: u64| #[trigger] positions.contains_key(k) ==> positions[k] != e,
    ensures
        walls_consistent(
            positions.insert(spec_pos_key(p), e),
            masks_after_add(
                masks.insert(e, 0),
                positions.insert(spec_pos_key(p), e),
                e,
                p,
                4,
            ),
        ),
{
    let kp = spec_pos_key(p);
    let ps = positions.insert(kp, e);
    let m0 = masks.insert(e, 0);
    let r = masks_after_add(m0, ps, e, p, 4);
    lemma_neighbor_geometry(p);
    assert forall|j: int| 0 <= j < 4 implies nbr_key(p, j) != kp by {
        lemma_pos_key_injective(p.spec_add(neighbor_offset(j)), p);
    }
    assert forall|i: int, j: int|
        0 <= i < 4 && 0 <= j < 4 && i != j && #[trigger] ps.contains_key(nbr_key(p, i))
            && #[trigger] ps.contains_key(nbr_key(p, j)) implies ps[nbr_key(p, i)] != ps[nbr_key(
        p,
        j,
    )] by {
        assert(nbr_key(p, i) != kp);
        assert(nbr_key(p, j) != kp);
        assert(positions.contains_key(spec_pos_key(p.spec_add(neighbor_offset(i)))));
        assert(positions.contains_key(spec_pos_key(p.spec_add(neighbor_offset(j)))));
    }
    assert forall|j: int|
        0 <= j < 4 && #[trigger] ps.contains_key(nbr_key(p, j)) implies ps[nbr_key(p, j)] != e
        && m0.contains_key(ps[nbr_key(p, j)]) by {
        assert(nbr_key(p, j) != kp);
        assert(positions.contains_key(spec_pos_key(p.spec_add(neighbor_offset(j)))));
    }
    lemma_add_steps(m0, ps, e, p, 4);
    lemma_chain_is_neighbor_bits(ps, p);
    assert forall|q: IVec2| #[trigger] ps.contains_key(spec_pos_key(q)) implies {
        &&& r.contains_key(ps[spec_pos_key(q)])
        &&& r[ps[spec_pos_key(q)]] == neighbor_bits(ps, q)
    } by {
        lemma_pos_key_injective(q, p);
        if q != p {
            let n = positions[spec_pos_key(q)];
            assert(n != e);
            assert(masks.contains_key(n));
            lemma_neighbor_geometry(q);
            lemma_chain_slots(
                dir_bit(positions, q, 0),
                dir_bit(positions, q, 1),
                dir_bit(positions, q, 2),
                dir_bit(positions, q, 3),
                0,
            );
            if exists|d: int| 0 <= d < 4 && q == p.spec_add(neighbor_offset(d)) {
                let d = choose|d: int| 0 <= d < 4 && q == p.spec_add(neighbor_offset(d));
                let s = opposite_dir(d);
                assert(ps.contains_key(nbr_key(p, d)));
                assert(ps[nbr_key(p, d)] == n);
                assert(q.spec_add(neighbor_offset(s)) == p);
                assert forall|j: int| 0 <= j < 4 && j != s implies nbr_key(q, j) != kp by {
                    lemma_pos_key_injective(q.spec_add(neighbor_offset(j)), p);
                }
                assert(!positions.contains_key(nbr_key(q, s)));
                lemma_chain_slots(
                    dir_bit(positions, q, 0),
                    dir_bit(positions, q, 1),
                    dir_bit(positions, q, 2),
                    dir_bit(positions, q, 3),
                    opposite_mask(d),
                );
                assert(r[n] == masks[n] | opposite_mask(d));
                assert(r[n] == neighbor_bits(ps, q));
            } else {
                assert forall|j: int| 0 <= j < 4 implies nbr_key(q, j) != kp by {
                    lemma_pos_key_injective(q.spec_add(neighbor_offset(j)), p);
                    if q.spec_add(neighbor_offset(j)) == p {
                        assert(q == p.spec_add(neighbor_offset(opposite_dir(j))));
                    }
                }
                assert forall|j: int| 0 <= j < 4 && #[trigger] ps.contains_key(nbr_key(p, j))
                    implies ps[nbr_key(p, j)] != n by {
                    if ps[nbr_key(p, j)] == n {
                        assert(positions.contains_key(
                            spec_pos_key(p.spec_add(neighbor_offset(j))),
                        ));
                    }
                }
                assert(dir_bit(ps, q, 0) == dir_bit(positions, q, 0));
                assert(dir_bit(ps, q, 1) == dir_bit(positions, q, 1));
                assert(dir_bit(ps, q, 2) == dir_bit(positions, q, 2));
                assert(dir_bit(ps, q, 3) == dir_bit(positions, q, 3));
            }
        }
    }
    assert forall|k: u64| #[trigger] ps.contains_key(k) implies exists|q: IVec2|
        spec_pos_key(q) == k by {
        if k == kp {
            assert(spec_pos_key(p) == k);
        }
    }
    assert forall|a: IVec2, b: IVec2|
        #![trigger ps.contains_key(spec_pos_key(a)), ps.contains_key(spec_pos_key(b))]
        ps.contains_key(spec_pos_key(a)) && ps.contains_key(spec_pos_key(b))
            && ps[spec_pos_key(a)] == ps[spec_pos_key(b)] implies a == b by {
        lemma_pos_key_injective(a, p);
        lemma_pos_key_injective(b, p);
    }
}


/// Law: removing the wall `e` from its tile `p` keeps every remaining wall's
/// mask equal to the set of its neighbouring walls.
pub proof fn lemma_wall_removed_keeps_masks(
    positions: Map<u64, u64>,
    masks: Map<u64, u8>,
    e: u64,
    p: IVec2,
)
    requires
        walls_consistent(positions, masks),
        positions.contains_key(spec_pos_key(p)),
        positions[spec_pos_key(p)] == e,
    ensures
        walls_consistent(
            positions.remove(spec_pos_key(p)),
            masks_after_remove(masks, positions.remove(spec_pos_key(p)), p, 4).remove(e),
        ),
{
    let kp = spec_pos_key(p);
    let ps = positions.remove(kp);
    let r0 = masks_after_remove(masks, ps, p, 4);
    let r = r0.remove(e);
    lemma_neighbor_geometry(p);
    assert forall|j: int| 0 <= j < 4 implies nbr_key(p, j) != kp by {
        lemma_pos_key_injective(p.spec_add(neighbor_offset(j)), p);
    }
    assert forall|i: int, j: int|
        0 <= i < 4 && 0 <= j < 4 && i != j && #[trigger] ps.contains_key(nbr_key(p, i))
            && #[trigger] ps.contains_key(nbr_key(p, j)) implies ps[nbr_key(p, i)] != ps[nbr_key(
        p,
        j,
    )] by {
        assert(positions.contains_key(spec_pos_key(p.spec_add(neighbor_offset(i)))));
        assert(positions.contains_key(spec_pos_key(p.spec_add(neighbor_offset(j)))));
    }
    lemma_remove_steps(masks, ps, p, 4);
    assert forall|q: IVec2| #[trigger] ps.contains_key(spec_pos_key(q)) implies {
        &&& r.contains_key(ps[spec_pos_key(q)])
        &&& r[ps[spec_pos_key(q)]] == neighbor_bits(ps, q)
    } by {
        lemma_pos_key_injective(q, p);
        let n = positions[spec_pos_key(q)];
        assert(positions.contains_key(spec_pos_key(p)));
        assert(n != e);
        assert(masks.contains_key(n));
        lemma_neighbor_geometry(q);
        if exists|d: int| 0 <= d < 4 && q == p.spec_add(neighbor_offset(d)) {
            let d = choose|d: int| 0 <= d < 4 && q == p.spec_add(neighbor_offset(d));
            let s = opposite_dir(d);
            assert(ps.contains_key(nbr_key(p, d)));
            assert(ps[nbr_key(p, d)] == n);
            assert(q.spec_add(neighbor_offset(s)) == p);
            assert forall|j: int| 0 <= j < 4 && j != s implies nbr_key(q, j) != kp by {
                lemma_pos_key_injective(q.spec_add(neighbor_offset(j)), p);
            }
            assert(positions.contains_key(nbr_key(q, s)));
            assert(!ps.contains_key(nbr_key(q, s)));
            lemma_chain_clear(
                dir_bit(positions, q, 0),
                dir_bit(positions, q, 1),
                dir_bit(positions, q, 2),
                dir_bit(positions, q, 3),
            );
            assert(r0[n] == masks[n] & !opposite_mask(d));
            assert(r[n] == neighbor_bits(ps, q));
        } else {
            assert forall|j: int| 0 <= j < 4 implies nbr_key(q, j) != kp by {
                lemma_pos_key_injective(q.spec_add(neighbor_offset(j)), p);
                if q.spec_add(neighbor_offset(j)) == p {
                    assert(q == p.spec_add(neighbor_offset(opposite_dir(j))));
                }
            }
            assert forall|j: int| 0 <= j < 4 && #[trigger] ps.contains_key(nbr_key(p, j))
                implies ps[nbr_key(p, j)] != n by {
                if ps[nbr_key(p, j)] == n {
                    assert(positions.contains_key(spec_pos_key(p.spec_add(neighbor_offset(j)))));
                }
            }
            assert(dir_bit(ps, q, 0) == dir_bit(positions, q, 0));
            assert(dir_bit(ps, q, 1) == dir_bit(positions, q, 1));
            assert(dir_bit(ps, q, 2) == dir_bit(positions, q, 2));
            assert(dir_bit(ps, q, 3) == dir_bit(positions, q, 3));
        }
    }
    assert forall|a: IVec2, b: IVec2|
        #![trigger ps.contains_key(spec_pos_key(a)), ps.contains_key(spec_pos_key(b))]
        ps.contains_key(spec_pos_key(a)) && ps.contains_key(spec_pos_key(b))
            && ps[spec_pos_key(a)] == ps[spec_pos_key(b)] implies a == b by {
        assert(positions.contains_key(spec_pos_key(a)));
        assert(positions.contains_key(spec_pos_key(b)));
    }
}


/// The bits that the walls `x` among the first `d` neighbours of `p` hold
/// toward `p`: for each such direction, the opposite direction's bit.
pub open spec fn toward_bits(positions: Map<u64, u64>, p: IVec2, x: u64, d: nat) -> u8
    decreases d,
{
    if d == 0 {
        0
    } else {
        let prev = toward_bits(positions, p, x, (d - 1) as nat);
        let k = nbr_key(p, d - 1);
        if positions.contains_key(k) && positions[k] == x {
            prev | opposite_mask(d - 1)
        } else {
            prev
        }
    }
}

proof fn lemma_bits_or_assoc(a: u8, t: u8, o: u8)
    ensures
        (a | t) | o == a | (t | o),
        (a & !t) & !o == a & !(t | o),
        a & t == 0 && a & o == 0 ==> a & (t | o) == 0,
        a & t == 0 ==> (a | t) & !t == a,
        a | 0u8 == a,
        a & !0u8 == a,
        a & 0u8 == 0,
{
    assert((a | t) | o == a | (t | o)) by (bit_vector);
    assert((a & !t) & !o == a & !(t | o)) by (bit_vector);
    assert(a & t == 0 && a & o == 0 ==> a & (t | o) == 0) by (bit_vector);
    assert(a & t == 0 ==> (a | t) & !t == a) by (bit_vector);
    assert(a | 0u8 == a && a & !0u8 == a && a & 0u8 == 0) by (bit_vector);
}

/// The first `d` steps of an addition OR each other wall's mask with the bits
/// it holds toward `p`.
proof fn lemma_add_toward(m0: Map<u64, u8>, ps: Map<u64, u64>, e: u64, p: IVec2, d: nat)
    requires
        m0.contains_key(e),
    ensures
        masks_after_add(m0, ps, e, p, d).dom() == m0.dom(),
        forall|x: u64|
            x != e && #[trigger] m0.contains_key(x) ==> masks_after_add(m0, ps, e, p, d)[x] == m0[x]
                | toward_bits(ps, p, x, d),
    decreases d,
{
    if d == 0 {
        assert forall|x: u64| x != e && #[trigger] m0.contains_key(x) implies masks_after_add(
            m0,
            ps,
            e,
            p,
            d,
        )[x] == m0[x] | toward_bits(ps, p, x, d) by {
            lemma_bits_or_assoc(m0[x], 0, 0);
        }
    } else {
        lemma_add_toward(m0, ps, e, p, (d - 1) as nat);
        let prev = masks_after_add(m0, ps, e, p, (d - 1) as nat);
        let r = masks_after_add(m0, ps, e, p, d);
        let k = nbr_key(p, d - 1);
        assert(r.dom() =~= m0.dom());
        assert forall|x: u64| x != e && #[trigger] m0.contains_key(x) implies r[x] == m0[x]
            | toward_bits(ps, p, x, d) by {
            if ps.contains_key(k) && ps[k] == x {
                lemma_bits_or_assoc(
                    m0[x],
                    toward_bits(ps, p, x, (d - 1) as nat),
                    opposite_mask(d - 1),
                );
            }
        }
    }
}

/// The first `d` steps of a removal clear, in each wall's mask, the bits it
/// holds toward `p`.
proof fn lemma_remove_toward(m: Map<u64, u8>, ps: Map<u64, u64>, p: IVec2, d: nat)
    ensures
        masks_after_remove(m, ps, p, d).dom() == m.dom(),
        forall|x: u64| #[trigger]
            m.contains_key(x) ==> masks_after_remove(m, ps, p, d)[x] == m[x] & !toward_bits(
                ps,
                p,
                x,
                d,
            ),
    decreases d,
{
    if d == 0 {
        assert forall|x: u64| #[trigger] m.contains_key(x) implies masks_after_remove(
            m,
            ps,
            p,
            d,
        )[x] == m[x] & !toward_bits(ps, p, x, d) by {
            lemma_bits_or_assoc(m[x], 0, 0);
        }
    } else {
        lemma_remove_toward(m, ps, p, (d - 1) as nat);
        let r = masks_after_remove(m, ps, p, d);
        let k = nbr_key(p, d - 1);
        assert(r.dom() =~= m.dom());
        assert forall|x: u64| #[trigger] m.contains_key(x) implies r[x] == m[x] & !toward_bits(
            ps,
            p,
            x,
            d,
        ) by {
            if ps.contains_key(k) && ps[k] == x {
                lemma_bits_or_assoc(
                    m[x],
                    toward_bits(ps, p, x, (d - 1) as nat),
                    opposite_mask(d - 1),
                );
            }
        }
    }
}

/// A mask with every bit toward `p` clear shares no bit with `toward_bits`.
proof fn lemma_toward_clear(a: u8, ps: Map<u64, u64>, p: IVec2, x: u64, d: nat)
    requires
        d <= 4,
        forall|j: int|
            0 <= j < d && #[trigger] ps.contains_key(nbr_key(p, j)) && ps[nbr_key(p, j)] == x ==> a
                & opposite_mask(j) == 0,
    ensures
        a & toward_bits(ps, p, x, d) == 0,
    decreases d,
{
    if d == 0 {
        lemma_bits_or_assoc(a, 0, 0);
    } else {
        lemma_toward_clear(a, ps, p, x, (d - 1) as nat);
        lemma_bits_or_assoc(a, toward_bits(ps, p, x, (d - 1) as nat), opposite_mask(d - 1));
    }
}

/// Position maps that agree on the neighbours of `p` give the same bits toward `p`.
proof fn lemma_toward_same(ps: Map<u64, u64>, qs: Map<u64, u64>, p: IVec2, x: u64, d: nat)
    requires
        d <= 4,
        forall|j: int|
            0 <= j < 4 ==> (#[trigger] ps.contains_key(nbr_key(p, j)) == qs.contains_key(
                nbr_key(p, j),
            ) && (ps.contains_key(nbr_key(p, j)) ==> ps[nbr_key(p, j)] == qs[nbr_key(p, j)])),
    ensures
        toward_bits(ps, p, x, d) == toward_bits(qs, p, x, d),
    decreases d,
{
    if d > 0 {
        lemma_toward_same(ps, qs, p, x, (d - 1) as nat);
        assert(ps.contains_key(nbr_key(p, d - 1)) == qs.contains_key(nbr_key(p, d - 1)));
    }
}

/// Law: a new wall `e` put on the free tile `p` and then taken away again
/// leaves the walls' positions as they were and every other wall's mask as it
/// was, provided that no neighbouring wall already had its bit toward `p` set.
pub proof fn lemma_wall_add_then_remove(
    positions: Map<u64, u64>,
    masks: Map<u64, u8>,
    e: u64,
    p: IVec2,
    initial_mask: u8,
)
    requires
        !positions.contains_key(spec_pos_key(p)),
        forall|d: int|
            #![trigger positions.contains_key(nbr_key(p, d))]
            0 <= d < 4 && positions.contains_key(nbr_key(p, d)) && positions[nbr_key(p, d)] != e
                && masks.contains_key(positions[nbr_key(p, d)]) ==> masks[positions[nbr_key(p, d)]]
                & opposite_mask(d) == 0,
    ensures
        positions.insert(spec_pos_key(p), e).remove(spec_pos_key(p)) == positions,
        masks_after_remove(
            masks_after_add(
                masks.insert(e, initial_mask),
                positions.insert(spec_pos_key(p), e),
                e,
                p,
                4,
            ),
            positions.insert(spec_pos_key(p), e).remove(spec_pos_key(p)),
            p,
            4,
        ).remove(e) == masks.remove(e),
{
    let kp = spec_pos_key(p);
    let p1 = positions.insert(kp, e);
    let m0 = masks.insert(e, initial_mask);
    let m1 = masks_after_add(m0, p1, e, p, 4);
    assert(p1.remove(kp) =~= positions);
    let m2 = masks_after_remove(m1, positions, p, 4);
    lemma_neighbor_geometry(p);
    assert forall|j: int| 0 <= j < 4 implies nbr_key(p, j) != kp by {
        lemma_pos_key_injective(p.spec_add(neighbor_offset(j)), p);
    }
    lemma_add_toward(m0, p1, e, p, 4);
    lemma_remove_toward(m1, positions, p, 4);
    assert forall|x: u64| #[trigger] masks.remove(e).contains_key(x) implies m2.remove(e)[x]
        == masks.remove(e)[x] by {
        assert(m0.contains_key(x));
        lemma_toward_same(p1, positions, p, x, 4);
        let t = toward_bits(positions, p, x, 4);
        assert forall|j: int|
            0 <= j < 4 && #[trigger] positions.contains_key(nbr_key(p, j)) && positions[nbr_key(
                p,
                j,
            )] == x implies masks[x] & opposite_mask(j) == 0 by {}
        lemma_toward_clear(masks[x], positions, p, x, 4);
        lemma_bits_or_assoc(masks[x], t, 0);
    }
    assert(m2.remove(e) =~= masks.remove(e));
}


/// One of the four quarter-tile pieces a wall is drawn with.
#[derive(Clone, Copy, Debug, PartialEq, Eq, Structural)]
pub struct WallCorner {
    /// Frame of the 2x2 corner atlas: 0 no neighbour, 1 one side, 2 both sides.
    pub index: usize,
    /// Quarter turns counter-clockwise.
    pub turns: u8,
    pub flip_x: bool,
    pub flip_y: bool,
    /// Offset of the piece from the wall's centre, in pixels.
    pub offset_x: i32,
    pub offset_y: i32,
}

/// The `i`-th corner (north-east, north-west, south-east, south-west) of a wall with mask `m`.
pub open spec fn spec_wall_corner(m: u8, i: int) -> WallCorner {
    let vert = if i < 2 { MASK_N } else { MASK_S };
    let horiz = if i % 2 == 0 { MASK_E } else { MASK_W };
    let bx = i % 2 == 0;
    let by = i >= 2;
    let has_v = m & vert != 0;
    let has_h = m & horiz != 0;
    let index: usize = if !has_v && !has_h { 0 } else if has_v && has_h { 2 } else { 1 };
    let turns: u8 = if has_v && !has_h { 1 } else { 0 };
    WallCorner {
        index,
        turns,
        flip_x: if turns == 1 { by } else { bx },
        flip_y: if turns == 1 { bx } else { by },
        offset_x: if bx { 8 } else { -8i32 },
        offset_y: if by { -8i32 } else { 8 },
    }
}

/// The four corner pieces of a wall with neighbour mask `m`, in the order
/// north-east, north-west, south-east, south-west.
pub fn wall_corners(m: u8) -> (r: Vec<WallCorner>)
    ensures
        r@.len() == 4,
        forall|i: int| 0 <= i < 4 ==> #[trigger] r@[i] == spec_wall_corner(m, i),
{
    let mut r: Vec<WallCorner> = Vec::new();
    let mut i: usize = 0;
    while i < 4
        invariant
            0 <= i <= 4,
            r@.len() == i,
            forall|j: int| 0 <= j < i ==> #[trigger] r@[j] == spec_wall_corner(m, j),
        decreases 4 - i,
    {
        let vert = if i < 2 { MASK_N } else { MASK_S };
        let horiz = if i % 2 == 0 { MASK_E } else { MASK_W };
        let bx = i % 2 == 0;
        let by = i >= 2;
        let (index, turns): (usize, u8) = match (m & vert != 0, m & horiz != 0) {
            (false, false) => (0, 0),
            (false, true) => (1, 0),
            (true, false) => (1, 1),
            (true, true) => (2, 0),
        };
        let (flip_x, flip_y) = if turns & 1 == 1 { (by, bx) } else { (bx, by) };
        assert(turns & 1 == 1 <==> turns == 1) by (bit_vector)
            requires
                turns == 0 || turns == 1,
        ;
        r.push(WallCorner {
            index,
            turns,
            flip_x,
            flip_y,
            offset_x: if bx { 8 } else { -8 },
            offset_y: if by { -8 } else { 8 },
        });
        i = i + 1;
    }
    r
}


/// Law: each corner piece of a wall with mask `m` shows how many of its two
/// sides hold a wall: its vertical side is north (bit 8) for the two northern
/// corners and south (bit 4) for the others, its horizontal side east (bit 2)
/// for the north-east and south-east corners and west (bit 1) for the others.
/// A piece with only its vertical side joined is turned a quarter, with its
/// flips swapped; each piece sits 8 pixels towards its corner.
pub proof fn lemma_corner_sides(m: u8)
    ensures
        forall|i: int|
            0 <= i < 4 ==> {
                let c = #[trigger] spec_wall_corner(m, i);
                let v = if i < 2 { m & 8u8 != 0 } else { m & 4u8 != 0 };
                let h = if i == 0 || i == 2 { m & 2u8 != 0 } else { m & 1u8 != 0 };
                let east = i == 0 || i == 2;
                let south = i >= 2;
                &&& c.index == (if v { 1usize } else { 0usize }) + (if h { 1usize } else { 0usize })
                &&& c.turns == (if v && !h { 1u8 } else { 0u8 })
                &&& c.flip_x == (if v && !h { south } else { east })
                &&& c.flip_y == (if v && !h { east } else { south })
                &&& c.offset_x == (if east { 8i32 } else { -8i32 })
                &&& c.offset_y == (if south { -8i32 } else { 8i32 })
            },
{
    assert forall|i: int| 0 <= i < 4 implies {
        let c = #[trigger] spec_wall_corner(m, i);
        let v = if i < 2 { m & 8u8 != 0 } else { m & 4u8 != 0 };
        let h = if i == 0 || i == 2 { m & 2u8 != 0 } else { m & 1u8 != 0 };
        let east = i == 0 || i == 2;
        let south = i >= 2;
        &&& c.index == (if v { 1usize } else { 0usize }) + (if h { 1usize } else { 0usize })
        &&& c.turns == (if v && !h { 1u8 } else { 0u8 })
        &&& c.flip_x == (if v && !h { south } else { east })
        &&& c.flip_y == (if v && !h { east } else { south })
        &&& c.offset_x == (if east { 8i32 } else { -8i32 })
        &&& c.offset_y == (if south { -8i32 } else { 8i32 })
    } by {
        assert(i % 2 == 0 <==> (i == 0 || i == 2));
    }
}

} // verus!
