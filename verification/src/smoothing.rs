//! Icon smoothing: sprites that join up with compatible neighbours. A spatial
//! index finds the smoothing entities on each tile, a queue collects the ones
//! whose neighbourhood changed, and each queued entity gets a new sprite state
//! or a new set of corner layers.
use crate::grid::{IVec2, pos_key, spec_pos_key};
use crate::text::{concat_decimal, decimal};
use std::collections::{HashMap, HashSet};
use vstd::prelude::*;

verus! {

broadcast use {
    vstd::std_specs::hash::group_hash_axioms,
    vstd::std_specs::hash::axiom_random_state_builds_valid_hashers,
    vstd::std_specs::hash::axiom_u64_obeys_hash_table_key_model,
};

/// How an entity's sprite reacts to its neighbours.
#[derive(Clone, Copy, Debug, PartialEq, Eq, Structural)]
pub enum IconSmoothingMode {
    /// Four corner layers, each picking a frame from its three neighbours.
    Corners,
    /// One state named by the base and a 4-bit mask of cardinal neighbours.
    CardinalFlags,
    /// One state named by the base and whether the south-east corner is closed.
    Diagonal,
    /// The sprite is left alone.
    NoSprite,
}

/// Rotation of a sprite layer.
#[derive(Clone, Copy, Debug, PartialEq, Eq, Structural)]
pub enum DirectionOffset {
    NoRotation,
    ClockWise,
    CounterClockWise,
    Flip,
}

/// Smoothing settings of an entity.
#[derive(Clone, Debug)]
pub struct IconSmooth {
    pub enabled: bool,
    /// Key that compatible neighbours share; without one nothing matches.
    pub smooth_key: Option<String>,
    /// Further neighbour keys that this entity joins up with.
    pub additional_keys: Vec<String>,
    /// Prefix of the sprite state names.
    pub state_base: String,
    pub mode: IconSmoothingMode,
}

/// One layer of a composite sprite.
#[derive(Clone, Debug)]
pub struct Layer {
    /// Sprite resource of the layer; without one the sprite's own is used.
    pub rsi_path: Option<String>,
    /// State of the layer; without one the sprite's own is used.
    pub state: Option<String>,
    pub visible: bool,
    pub dir_offset: DirectionOffset,
}

/// The contents of a `Layer`, as text.
pub struct LayerView {
    pub rsi_path: Option<Seq<char>>,
    pub state: Option<Seq<char>>,
    pub visible: bool,
    pub dir_offset: DirectionOffset,
}

/// The text of an optional string.
pub open spec fn opt_view(s: Option<String>) -> Option<Seq<char>> {
    match s {
        Some(t) => Some(t@),
        None => None,
    }
}

impl View for Layer {
    type V = LayerView;

    open spec fn view(&self) -> LayerView {
        LayerView {
            rsi_path: opt_view(self.rsi_path),
            state: opt_view(self.state),
            visible: self.visible,
            dir_offset: self.dir_offset,
        }
    }
}

/// A new look for a smoothing entity's sprite.
pub enum SpriteUpdate {
    /// Replace the sprite's state.
    State(String),
    /// Replace the sprite's layers.
    Layers(Vec<Layer>),
}

/// The contents of a `SpriteUpdate`, as text.
pub enum SpriteUpdateView {
    State(Seq<char>),
    Layers(Seq<LayerView>),
}

impl View for SpriteUpdate {
    type V = SpriteUpdateView;

    open spec fn view(&self) -> SpriteUpdateView {
        match self {
            SpriteUpdate::State(s) => SpriteUpdateView::State(s@),
            SpriteUpdate::Layers(v) => SpriteUpdateView::Layers(v@.map_values(|l: Layer| l@)),
        }
    }
}

/// Position and smoothing settings of one smoothing entity.
#[derive(Clone, Debug)]
pub struct SmoothEntry {
    pub pos: IVec2,
    pub smooth: IconSmooth,
}

/// `b` is a neighbour that `a` joins up with: `b` is enabled, both have a key,
/// and `a`'s key or one of its additional keys is `b`'s key.
pub open spec fn spec_is_compatible(a: IconSmooth, b: IconSmooth) -> bool {
    &&& b.enabled
    &&& a.smooth_key is Some
    &&& b.smooth_key is Some
    &&& (a.smooth_key->0@ == b.smooth_key->0@ || exists|i: int|
        0 <= i < a.additional_keys@.len() && #[trigger] a.additional_keys@[i]@
            == b.smooth_key->0@)
}

/// Decides whether `b` is a neighbour that `a` joins up with.
pub fn is_compatible(a: &IconSmooth, b: &IconSmooth) -> (r: bool)
    ensures
        r == spec_is_compatible(*a, *b),
{
    if !b.enabled {
        return false;
    }
    let key_a = match &a.smooth_key {
        Some(k) => k,
        None => {
            return false;
        },
    };
    let key_b = match &b.smooth_key {
        Some(k) => k,
        None => {
            return false;
        },
    };
    if key_a.eq(key_b) {
        return true;
    }
    let mut i: usize = 0;
    while i < a.additional_keys.len()
        invariant
            0 <= i <= a.additional_keys@.len(),
            b.enabled,
            a.smooth_key is Some,
            b.smooth_key is Some,
            key_b@ == b.smooth_key->0@,
            a.smooth_key->0@ != key_b@,
            forall|j: int| 0 <= j < i ==> a.additional_keys@[j]@ != key_b@,
        decreases a.additional_keys@.len() - i,
    {
        if a.additional_keys[i].eq(key_b) {
            assert(a.additional_keys@[i as int]@ == b.smooth_key->0@);
            return true;
        }
        i = i + 1;
    }
    false
}

/// Some smoothing entity on tile `pos` is a neighbour that `smooth` joins up with.
pub open spec fn spec_has_matching_neighbor(
    pos: IVec2,
    smooth: IconSmooth,
    data: Map<u64, SmoothEntry>,
    index: Map<u64, Vec<u64>>,
) -> bool {
    index.contains_key(spec_pos_key(pos)) && exists|i: int|
        0 <= i < index[spec_pos_key(pos)]@.len() && data.contains_key(
            #[trigger] index[spec_pos_key(pos)]@[i],
        ) && spec_is_compatible(smooth, data[index[spec_pos_key(pos)]@[i]].smooth)
}

/// Decides whether some smoothing entity on tile `pos` is a neighbour that `smooth` joins up with.
pub fn has_matching_neighbor(
    pos: IVec2,
    smooth: &IconSmooth,
    data: &HashMap<u64, SmoothEntry>,
    index: &SmoothSpatialIndex,
) -> (r: bool)
    ensures
        r == spec_has_matching_neighbor(pos, *smooth, data@, index.index@),
{
    let entities = match index.index.get(&pos_key(pos)) {
        Some(v) => v,
        None => {
            return false;
        },
    };
    let mut i: usize = 0;
    while i < entities.len()
        invariant
            0 <= i <= entities@.len(),
            index.index@.contains_key(spec_pos_key(pos)),
            *entities == index.index@[spec_pos_key(pos)],
            forall|j: int|
                0 <= j < i ==> !(data@.contains_key(#[trigger] entities@[j])
                    && spec_is_compatible(*smooth, data@[entities@[j]].smooth)),
        decreases entities@.len() - i,
    {
        let e = entities[i];
        match data.get(&e) {
            Some(entry) => {
                if is_compatible(smooth, &entry.smooth) {
                    return true;
                }
            },
            None => {},
        }
        i = i + 1;
    }
    false
}

/// 1 for true, 0 for false.
pub open spec fn bit(b: bool) -> u8 {
    if b {
        1
    } else {
        0
    }
}

/// Neighbour of `pos` at offset (`dx`, `dy`) joins up with `smooth`.
pub open spec fn matches_at(
    pos: IVec2,
    dx: int,
    dy: int,
    smooth: IconSmooth,
    data: Map<u64, SmoothEntry>,
    index: Map<u64, Vec<u64>>,
) -> bool {
    spec_has_matching_neighbor(pos.spec_add(IVec2 { x: dx as i32, y: dy as i32 }), smooth, data, index)
}

/// Cardinal mask: north 1, south 2, east 4, west 8.
pub open spec fn spec_cardinal_dirs(
    pos: IVec2,
    smooth: IconSmooth,
    data: Map<u64, SmoothEntry>,
    index: Map<u64, Vec<u64>>,
) -> u8 {
    (bit(matches_at(pos, 0, 1, smooth, data, index)) + 2 * bit(
        matches_at(pos, 0, -1, smooth, data, index),
    ) + 4 * bit(matches_at(pos, 1, 0, smooth, data, index)) + 8 * bit(
        matches_at(pos, -1, 0, smooth, data, index),
    )) as u8
}

proof fn lemma_four_bits(n: bool, s: bool, e: bool, w: bool)
    ensures
        (((((0u8 | (if n { 1u8 } else { 0u8 })) | (if s { 2u8 } else { 0u8 })) | (if e {
            4u8
        } else {
            0u8
        })) | (if w { 8u8 } else { 0u8 }))) == (bit(n) + 2 * bit(s) + 4 * bit(e) + 8 * bit(
            w,
        )) as u8,
{
    let a: u8 = if n { 1u8 } else { 0u8 };
    let b: u8 = if s { 2u8 } else { 0u8 };
    let c: u8 = if e { 4u8 } else { 0u8 };
    let d: u8 = if w { 8u8 } else { 0u8 };
    assert((((0u8 | a) | b) | c) | d == a + b + c + d) by (bit_vector)
        requires
            a == 0 || a == 1,
            b == 0 || b == 2,
            c == 0 || c == 4,
            d == 0 || d == 8,
    ;
}

/// Sprite state for `CardinalFlags`: the base followed by the cardinal mask in decimal.
pub fn calculate_cardinal(
    smooth: &IconSmooth,
    pos: IVec2,
    data: &HashMap<u64, SmoothEntry>,
    index: &SmoothSpatialIndex,
) -> (r: String)
    ensures
        r@ == smooth.state_base@ + decimal(
            spec_cardinal_dirs(pos, *smooth, data@, index.index@) as nat,
        ),
{
    let mut dirs: u8 = 0;
    let n = has_matching_neighbor(pos.add(IVec2 { x: 0, y: 1 }), smooth, data, index);
    if n {
        dirs = dirs | 1;
    }
    let s = has_matching_neighbor(pos.sub(IVec2 { x: 0, y: 1 }), smooth, data, index);
    if s {
        dirs = dirs | 2;
    }
    let e = has_matching_neighbor(pos.add(IVec2 { x: 1, y: 0 }), smooth, data, index);
    if e {
        dirs = dirs | 4;
    }
    let w = has_matching_neighbor(pos.sub(IVec2 { x: 1, y: 0 }), smooth, data, index);
    if w {
        dirs = dirs | 8;
    }
    proof {
        lemma_four_bits(n, s, e, w);
        assert(pos.spec_sub(IVec2 { x: 0, y: 1 }) == pos.spec_add(IVec2 { x: 0, y: -1i32 }));
        assert(pos.spec_sub(IVec2 { x: 1, y: 0 }) == pos.spec_add(IVec2 { x: -1i32, y: 0 }));
        if !n {
            assert(0u8 | 0u8 == 0u8) by (bit_vector);
        }
        assert(dirs == (((((0u8 | (if n { 1u8 } else { 0u8 })) | (if s { 2u8 } else { 0u8 }))
            | (if e { 4u8 } else { 0u8 })) | (if w { 8u8 } else { 0u8 })))) by {
            let a: u8 = if n { 1u8 } else { 0u8 };
            let b: u8 = if s { 2u8 } else { 0u8 };
            let c: u8 = if e { 4u8 } else { 0u8 };
            assert(forall|x: u8| #[trigger] (x | 0u8) == x) by (bit_vector);
            assert(0u8 | a == a) by (bit_vector);
        }
    }
    concat_decimal(smooth.state_base.as_str(), dirs as u64)
}

/// The south-east corner is closed: east, south-east and south all join up.
pub open spec fn spec_diagonal_closed(
    pos: IVec2,
    smooth: IconSmooth,
    data: Map<u64, SmoothEntry>,
    index: Map<u64, Vec<u64>>,
) -> bool {
    matches_at(pos, 1, 0, smooth, data, index) && matches_at(pos, 1, -1, smooth, data, index)
        && matches_at(pos, 0, -1, smooth, data, index)
}

/// Sprite state for `Diagonal`: the base followed by 1 if the south-east corner
/// is closed, else by 0.
pub fn calculate_diagonal(
    smooth: &IconSmooth,
    pos: IVec2,
    data: &HashMap<u64, SmoothEntry>,
    index: &SmoothSpatialIndex,
) -> (r: String)
    ensures
        r@ == smooth.state_base@ + decimal(
            bit(spec_diagonal_closed(pos, *smooth, data@, index.index@)) as nat,
        ),
{
    let matching = has_matching_neighbor(pos.add(IVec2 { x: 1, y: 0 }), smooth, data, index)
        && has_matching_neighbor(pos.add(IVec2 { x: 1, y: -1i32 }), smooth, data, index)
        && has_matching_neighbor(pos.sub(IVec2 { x: 0, y: 1 }), smooth, data, index);
    proof {
        assert(pos.spec_sub(IVec2 { x: 0, y: 1 }) == pos.spec_add(IVec2 { x: 0, y: -1i32 }));
    }
    concat_decimal(
        smooth.state_base.as_str(),
        if matching {
            1
        } else {
            0
        },
    )
}

/// Fill of a corner from its counter-clockwise side, its diagonal and its
/// clockwise side: 1, 2 and 4.
pub open spec fn corner_fill(ccw: bool, diag: bool, cw: bool) -> u8 {
    (bit(ccw) + 2 * bit(diag) + 4 * bit(cw)) as u8
}

/// The corner layer for fill `fill`: state `base` followed by the fill in decimal.
pub open spec fn spec_corner_layer(base: Seq<char>, fill: u8, dir: DirectionOffset) -> LayerView {
    LayerView {
        rsi_path: None,
        state: Some(base + decimal(fill as nat)),
        visible: true,
        dir_offset: dir,
    }
}

/// Builds the visible corner layer for fill `fill`, rotated by `dir_offset`.
pub fn create_corner_layer(base: &str, fill: u8, dir_offset: DirectionOffset) -> (r: Layer)
    ensures
        r@ == spec_corner_layer(base@, fill, dir_offset),
{
    Layer {
        rsi_path: None,
        state: Some(concat_decimal(base, fill as u64)),
        visible: true,
        dir_offset,
    }
}

/// The four corner layers of `Corners` mode, in the order south-east, north-east,
/// north-west, south-west.
pub open spec fn spec_corner_layers(
    pos: IVec2,
    smooth: IconSmooth,
    data: Map<u64, SmoothEntry>,
    index: Map<u64, Vec<u64>>,
) -> Seq<LayerView> {
    let n = matches_at(pos, 0, 1, smooth, data, index);
    let s = matches_at(pos, 0, -1, smooth, data, index);
    let e = matches_at(pos, 1, 0, smooth, data, index);
    let w = matches_at(pos, -1, 0, smooth, data, index);
    let ne = matches_at(pos, 1, 1, smooth, data, index);
    let nw = matches_at(pos, -1, 1, smooth, data, index);
    let se = matches_at(pos, 1, -1, smooth, data, index);
    let sw = matches_at(pos, -1, -1, smooth, data, index);
    let base = smooth.state_base@;
    seq![
        spec_corner_layer(base, corner_fill(e, se, s), DirectionOffset::NoRotation),
        spec_corner_layer(base, corner_fill(n, ne, e), DirectionOffset::CounterClockWise),
        spec_corner_layer(base, corner_fill(w, nw, n), DirectionOffset::Flip),
        spec_corner_layer(base, corner_fill(s, sw, w), DirectionOffset::ClockWise),
    ]
}

proof fn lemma_or3(a: bool, b: bool, c: bool)
    ensures
        ((((0u8 | (if a { 1u8 } else { 0u8 })) | (if b { 2u8 } else { 0u8 })) | (if c {
            4u8
        } else {
            0u8
        }))) == corner_fill(a, b, c),
{
    let x: u8 = if a { 1u8 } else { 0u8 };
    let y: u8 = if b { 2u8 } else { 0u8 };
    let z: u8 = if c { 4u8 } else { 0u8 };
    assert(((0u8 | x) | y) | z == x + y + z) by (bit_vector)
        requires
            x == 0 || x == 1,
            y == 0 || y == 2,
            z == 0 || z == 4,
    ;
}

/// Layers for `Corners` mode: each corner's fill says which of its
/// counter-clockwise side (1), diagonal (2) and clockwise side (4) join up.
pub fn calculate_corners(
    smooth: &IconSmooth,
    pos: IVec2,
    data: &HashMap<u64, SmoothEntry>,
    index: &SmoothSpatialIndex,
) -> (r: Vec<Layer>)
    ensures
        r@.map_values(|l: Layer| l@) == spec_corner_layers(pos, *smooth, data@, index.index@),
{
    let n = has_matching_neighbor(pos.add(IVec2 { x: 0, y: 1 }), smooth, data, index);
    let s = has_matching_neighbor(pos.sub(IVec2 { x: 0, y: 1 }), smooth, data, index);
    let e = has_matching_neighbor(pos.add(IVec2 { x: 1, y: 0 }), smooth, data, index);
    let w = has_matching_neighbor(pos.sub(IVec2 { x: 1, y: 0 }), smooth, data, index);
    let ne = has_matching_neighbor(pos.add(IVec2 { x: 1, y: 1 }), smooth, data, index);
    let nw = has_matching_neighbor(pos.add(IVec2 { x: -1i32, y: 1 }), smooth, data, index);
    let se = has_matching_neighbor(pos.add(IVec2 { x: 1, y: -1i32 }), smooth, data, index);
    let sw = has_matching_neighbor(pos.add(IVec2 { x: -1i32, y: -1i32 }), smooth, data, index);
    proof {
        assert(pos.spec_sub(IVec2 { x: 0, y: 1 }) == pos.spec_add(IVec2 { x: 0, y: -1i32 }));
        assert(pos.spec_sub(IVec2 { x: 1, y: 0 }) == pos.spec_add(IVec2 { x: -1i32, y: 0 }));
    }

    let ccw: u8 = 1;
    let diag: u8 = 2;
    let cw: u8 = 4;
    let c_ne: u8 = ((0u8 | (if n { ccw } else { 0 })) | (if ne { diag } else { 0 })) | (if e {
        cw
    } else {
        0
    });
    let c_se: u8 = ((0u8 | (if e { ccw } else { 0 })) | (if se { diag } else { 0 })) | (if s {
        cw
    } else {
        0
    });
    let c_sw: u8 = ((0u8 | (if s { ccw } else { 0 })) | (if sw { diag } else { 0 })) | (if w {
        cw
    } else {
        0
    });
    let c_nw: u8 = ((0u8 | (if w { ccw } else { 0 })) | (if nw { diag } else { 0 })) | (if n {
        cw
    } else {
        0
    });
    proof {
        lemma_or3(n, ne, e);
        lemma_or3(e, se, s);
        lemma_or3(s, sw, w);
        lemma_or3(w, nw, n);
    }
    let base = smooth.state_base.as_str();
    let mut r: Vec<Layer> = Vec::new();
    r.push(create_corner_layer(base, c_se, DirectionOffset::NoRotation));
    r.push(create_corner_layer(base, c_ne, DirectionOffset::CounterClockWise));
    r.push(create_corner_layer(base, c_nw, DirectionOffset::Flip));
    r.push(create_corner_layer(base, c_sw, DirectionOffset::ClockWise));
    proof {
        assert(r@.map_values(|l: Layer| l@) =~= spec_corner_layers(
            pos,
            *smooth,
            data@,
            index.index@,
        ));
    }
    r
}

/// Where the smoothing entities stand: the entities on each tile, keyed by the
/// tile's position key, and the tile of each entity.
pub struct SmoothSpatialIndex {
    pub index: HashMap<u64, Vec<u64>>,
    pub reverse: HashMap<u64, IVec2>,
}

/// Holds for every entity other than `e`.
pub open spec fn other_than(e: u64) -> spec_fn(u64) -> bool {
    |x: u64| x != e
}

/// The entities recorded under key `k`, none if the key is absent.
pub open spec fn entities_at(view: Map<u64, Seq<u64>>, k: u64) -> Seq<u64> {
    if view.contains_key(k) {
        view[k]
    } else {
        Seq::empty()
    }
}

/// `view` after entity `e` left the tile with key `k`: the tile keeps its other
/// entities, and a tile left empty is dropped.
pub open spec fn detached(view: Map<u64, Seq<u64>>, e: u64, k: u64) -> Map<u64, Seq<u64>> {
    let rest = entities_at(view, k).filter(other_than(e));
    if !view.contains_key(k) {
        view
    } else if rest.len() == 0 {
        view.remove(k)
    } else {
        view.insert(k, rest)
    }
}

proof fn lemma_push_to_set(s: Seq<u64>, x: u64)
    ensures
        s.push(x).to_set() == s.to_set().insert(x),
{
    assert forall|a: u64| s.to_set().insert(x).contains(a) implies s.push(x).to_set().contains(a) by {
        if a == x {
            assert(s.push(x)[s.len() as int] == x);
        } else if s.contains(a) {
            let i = choose|i: int| 0 <= i < s.len() && s[i] == a;
            assert(s.push(x)[i] == a);
        }
    }
    assert forall|a: u64| s.push(x).to_set().contains(a) implies s.to_set().insert(x).contains(a) by {
        if s.push(x).contains(a) && a != x {
            let i = choose|i: int| 0 <= i < s.len() + 1 && s.push(x)[i] == a;
            assert(s[i] == a);
        }
    }
    assert(s.push(x).to_set() =~= s.to_set().insert(x));
}

/// The elements of `v` other than `e`, in order.
fn without(v: &Vec<u64>, e: u64) -> (r: Vec<u64>)
    ensures
        r@ == v@.filter(other_than(e)),
{
    let mut r: Vec<u64> = Vec::new();
    let mut i: usize = 0;
    while i < v.len()
        invariant
            0 <= i <= v@.len(),
            r@ == v@.take(i as int).filter(other_than(e)),
        decreases v@.len() - i,
    {
        proof {
            assert(v@.take(i + 1).drop_last() =~= v@.take(i as int));
            reveal_with_fuel(Seq::<_>::filter, 1);
        }
        if v[i] != e {
            r.push(v[i]);
        }
        i = i + 1;
    }
    proof {
        assert(v@.take(v@.len() as int) =~= v@);
    }
    r
}

impl SmoothSpatialIndex {
    /// The entities on each tile, keyed by the tile's position key.
    pub open spec fn view_index(&self) -> Map<u64, Seq<u64>> {
        self.index@.map_values(|v: Vec<u64>| v@)
    }

    /// An index with no entities.
    pub fn new() -> (r: SmoothSpatialIndex)
        ensures
            r.view_index() == Map::<u64, Seq<u64>>::empty(),
            r.reverse@ == Map::<u64, IVec2>::empty(),
            index_consistent(r.view_index(), r.reverse@),
    {
        let r = SmoothSpatialIndex { index: HashMap::new(), reverse: HashMap::new() };
        assert(r.view_index() =~= Map::<u64, Seq<u64>>::empty());
        r
    }

    /// Records entity `e` on tile `pos`, after the entities already there.
    pub fn insert(&mut self, e: u64, pos: IVec2)
        ensures
            final(self).view_index() == old(self).view_index().insert(
                spec_pos_key(pos),
                entities_at(old(self).view_index(), spec_pos_key(pos)).push(e),
            ),
            final(self).reverse@ == old(self).reverse@.insert(e, pos),
            index_consistent(old(self).view_index(), old(self).reverse@) && !old(
                self,
            ).reverse@.contains_key(e) ==> index_consistent(
                final(self).view_index(),
                final(self).reverse@,
            ),
    {
        proof {
            if index_consistent(old(self).view_index(), old(self).reverse@) && !old(
                self,
            ).reverse@.contains_key(e) {
                lemma_index_insert_keeps_consistent(old(self).view_index(), old(self).reverse@, e, pos);
            }
        }
        let k = pos_key(pos);
        let mut v = match self.index.remove(&k) {
            Some(v) => v,
            None => Vec::new(),
        };
        v.push(e);
        self.index.insert(k, v);
        self.reverse.insert(e, pos);
        assert(self.view_index() =~= old(self).view_index().insert(
            spec_pos_key(pos),
            entities_at(old(self).view_index(), spec_pos_key(pos)).push(e),
        ));
    }

    /// Takes entity `e` off the tile with key `k`, dropping the tile if it is left empty.
    fn detach(&mut self, e: u64, k: u64)
        ensures
            final(self).view_index() == detached(old(self).view_index(), e, k),
            final(self).reverse@ == old(self).reverse@,
    {
        match self.index.remove(&k) {
            Some(v) => {
                assert(old(self).view_index().contains_key(k));
                assert(entities_at(old(self).view_index(), k) == v@);
                let rest = without(&v, e);
                assert(self.index@ == old(self).index@.remove(k));
                if rest.len() > 0 {
                    self.index.insert(k, rest);
                    assert forall|k2: u64| #[trigger] self.view_index().contains_key(k2) implies
                        self.view_index()[k2] == detached(old(self).view_index(), e, k)[k2] by {
                        if k2 != k {
                            assert(self.index@[k2] == old(self).index@[k2]);
                        }
                    }
                    assert(self.view_index().dom() =~= detached(old(self).view_index(), e, k).dom());
                    assert(self.view_index() =~= detached(old(self).view_index(), e, k));
                } else {
                    assert forall|k2: u64| #[trigger] self.view_index().contains_key(k2) implies
                        self.view_index()[k2] == detached(old(self).view_index(), e, k)[k2] by {
                        assert(self.index@[k2] == old(self).index@[k2]);
                    }
                    assert(self.view_index().dom() =~= detached(old(self).view_index(), e, k).dom());
                    assert(self.view_index() =~= detached(old(self).view_index(), e, k));
                }
            },
            None => {
                assert(!old(self).view_index().contains_key(k));
                assert(self.view_index() =~= old(self).view_index());
            },
        }
    }

    /// Entity `e` now stands on `pos`: it leaves the tile it was recorded on, if
    /// any, and is recorded on `pos`.
    pub fn move_to(&mut self, e: u64, pos: IVec2)
        ensures
            ({
                let mid = if old(self).reverse@.contains_key(e) {
                    detached(old(self).view_index(), e, spec_pos_key(old(self).reverse@[e]))
                } else {
                    old(self).view_index()
                };
                final(self).view_index() == mid.insert(
                    spec_pos_key(pos),
                    entities_at(mid, spec_pos_key(pos)).push(e),
                )
            }),
            final(self).reverse@ == old(self).reverse@.insert(e, pos),
            index_consistent(old(self).view_index(), old(self).reverse@) ==> index_consistent(
                final(self).view_index(),
                final(self).reverse@,
            ),
    {
        match self.reverse.remove(&e) {
            Some(old_pos) => {
                self.detach(e, pos_key(old_pos));
                proof {
                    if index_consistent(old(self).view_index(), old(self).reverse@) {
                        lemma_index_detach_keeps_consistent(
                            old(self).view_index(),
                            old(self).reverse@,
                            e,
                        );
                    }
                }
            },
            None => {},
        }
        self.insert(e, pos);
        assert(old(self).reverse@.remove(e).insert(e, pos) =~= old(self).reverse@.insert(e, pos));
    }

    /// Entity `e` stopped smoothing: every smoothing entity around the tile it
    /// was recorded on is queued, and it leaves the index.
    pub fn remove(&mut self, e: u64, queue: &mut SmoothQueue)
        requires
            old(queue).wf(),
        ensures
            final(queue).wf(),
            final(self).reverse@ == old(self).reverse@.remove(e),
            old(self).reverse@.contains_key(e) ==> {
                &&& final(self).view_index() == detached(
                    old(self).view_index(),
                    e,
                    spec_pos_key(old(self).reverse@[e]),
                )
                &&& final(queue).dirty().to_set() == old(queue).dirty().to_set().union(
                    neighbor_entities(old(self).reverse@[e], old(self).view_index()),
                )
            },
            !old(self).reverse@.contains_key(e) ==> {
                &&& final(self).view_index() == old(self).view_index()
                &&& final(queue).dirty() == old(queue).dirty()
            },
            index_consistent(old(self).view_index(), old(self).reverse@) ==> index_consistent(
                final(self).view_index(),
                final(self).reverse@,
            ),
    {
        proof {
            if index_consistent(old(self).view_index(), old(self).reverse@)
                && old(self).reverse@.contains_key(e) {
                lemma_index_detach_keeps_consistent(old(self).view_index(), old(self).reverse@, e);
            }
            if !old(self).reverse@.contains_key(e) {
                assert(old(self).reverse@.remove(e) =~= old(self).reverse@);
            }
        }
        match self.reverse.remove(&e) {
            Some(old_pos) => {
                queue.dirty_neighbors(old_pos, self);
                self.detach(e, pos_key(old_pos));
            },
            None => {},
        }
    }
}

/// The index and the reverse map agree: an entity is recorded on a tile exactly
/// when the reverse map puts it there; every recorded tile holds at least one
/// entity, none twice.
pub open spec fn index_consistent(view: Map<u64, Seq<u64>>, reverse: Map<u64, IVec2>) -> bool {
    &&& forall|e: u64, p: IVec2|
        #![trigger entities_at(view, spec_pos_key(p)).contains(e), reverse.contains_key(e), spec_pos_key(p)]
        (reverse.contains_key(e) && reverse[e] == p) <==> entities_at(
            view,
            spec_pos_key(p),
        ).contains(e)
    &&& forall|k: u64| #[trigger]
        view.contains_key(k) ==> view[k].len() > 0 && view[k].no_duplicates() && exists|p: IVec2|
            spec_pos_key(p) == k
}

proof fn lemma_filter_other_than(s: Seq<u64>, e: u64)
    ensures
        forall|x: u64| #[trigger]
            s.filter(other_than(e)).contains(x) <==> (s.contains(x) && x != e),
        s.no_duplicates() ==> s.filter(other_than(e)).no_duplicates(),
    decreases s.len(),
{
    reveal_with_fuel(Seq::<_>::filter, 1);
    if s.len() > 0 {
        let t = s.drop_last();
        lemma_filter_other_than(t, e);
        let ft = t.filter(other_than(e));
        assert forall|x: u64| #[trigger] s.contains(x) <==> (t.contains(x) || x == s.last()) by {
            if s.contains(x) && x != s.last() {
                let i = choose|i: int| 0 <= i < s.len() && s[i] == x;
                assert(t[i] == x);
            }
            if t.contains(x) {
                let i = choose|i: int| 0 <= i < t.len() && t[i] == x;
                assert(s[i] == x);
            }
            if x == s.last() {
                assert(s[s.len() - 1] == x);
            }
        }
        if s.last() != e {
            assert forall|x: u64| #[trigger] ft.push(s.last()).contains(x) <==> (ft.contains(x)
                || x == s.last()) by {
                if ft.push(s.last()).contains(x) && x != s.last() {
                    let i = choose|i: int|
                        0 <= i < ft.push(s.last()).len() && ft.push(s.last())[i] == x;
                    assert(ft[i] == x);
                }
                if ft.contains(x) {
                    let i = choose|i: int| 0 <= i < ft.len() && ft[i] == x;
                    assert(ft.push(s.last())[i] == x);
                }
                if x == s.last() {
                    assert(ft.push(s.last())[ft.len() as int] == x);
                }
            }
            if s.no_duplicates() {
                assert(!t.contains(s.last())) by {
                    if t.contains(s.last()) {
                        let i = choose|i: int| 0 <= i < t.len() && t[i] == s.last();
                        assert(s[i] == s[s.len() - 1]);
                    }
                }
                assert(t.no_duplicates()) by {
                    assert forall|i: int, j: int|
                        0 <= i < t.len() && 0 <= j < t.len() && i != j implies t[i] != t[j] by {
                        assert(s[i] != s[j]);
                    }
                }
                assert(!ft.contains(s.last()));
                assert forall|i: int, j: int|
                    0 <= i < ft.push(s.last()).len() && 0 <= j < ft.push(s.last()).len() && i
                        != j implies ft.push(s.last())[i] != ft.push(s.last())[j] by {
                    if i < ft.len() && j < ft.len() {
                    } else if i < ft.len() {
                        assert(ft.contains(ft[i]));
                    } else if j < ft.len() {
                        assert(ft.contains(ft[j]));
                    }
                }
            }
        } else {
            if s.no_duplicates() {
                assert forall|i: int, j: int|
                    0 <= i < t.len() && 0 <= j < t.len() && i != j implies t[i] != t[j] by {
                    assert(s[i] != s[j]);
                }
            }
        }
    }
}

/// Law: recording an entity that the index does not hold yet keeps the index
/// and the reverse map in agreement.
pub proof fn lemma_index_insert_keeps_consistent(
    view: Map<u64, Seq<u64>>,
    reverse: Map<u64, IVec2>,
    e: u64,
    pos: IVec2,
)
    requires
        index_consistent(view, reverse),
        !reverse.contains_key(e),
    ensures
        index_consistent(
            view.insert(spec_pos_key(pos), entities_at(view, spec_pos_key(pos)).push(e)),
            reverse.insert(e, pos),
        ),
{
    let k = spec_pos_key(pos);
    let old_list = entities_at(view, k);
    let v2 = view.insert(k, old_list.push(e));
    let r2 = reverse.insert(e, pos);
    assert forall|x: u64| #[trigger] old_list.push(e).contains(x) <==> (old_list.contains(x)
        || x == e) by {
        if old_list.push(e).contains(x) && x != e {
            let i = choose|i: int| 0 <= i < old_list.push(e).len() && old_list.push(e)[i] == x;
            assert(old_list[i] == x);
        }
        if old_list.contains(x) {
            let i = choose|i: int| 0 <= i < old_list.len() && old_list[i] == x;
            assert(old_list.push(e)[i] == x);
        }
        if x == e {
            assert(old_list.push(e)[old_list.len() as int] == x);
        }
    }
    assert(!old_list.contains(e));
    assert forall|x: u64, p: IVec2|
        #![trigger entities_at(v2, spec_pos_key(p)).contains(x), r2.contains_key(x), spec_pos_key(p)]
        (r2.contains_key(x) && r2[x] == p) <==> entities_at(v2, spec_pos_key(p)).contains(x) by {
        crate::grid::lemma_pos_key_injective(p, pos);
        if spec_pos_key(p) != k {
            assert(entities_at(v2, spec_pos_key(p)) == entities_at(view, spec_pos_key(p)));
        }
    }
    assert forall|kk: u64| #[trigger] v2.contains_key(kk) implies v2[kk].len() > 0
        && v2[kk].no_duplicates() && exists|p: IVec2| spec_pos_key(p) == kk by {
        if kk == k {
            assert(spec_pos_key(pos) == kk);
            assert forall|i: int, j: int|
                0 <= i < old_list.push(e).len() && 0 <= j < old_list.push(e).len() && i
                    != j implies old_list.push(e)[i] != old_list.push(e)[j] by {
                if i < old_list.len() && j < old_list.len() {
                    assert(view[k].no_duplicates());
                } else if i < old_list.len() {
                    assert(old_list.contains(old_list[i]));
                } else if j < old_list.len() {
                    assert(old_list.contains(old_list[j]));
                }
            }
        }
    }
}

/// Law: taking an entity off the tile the reverse map puts it on, and out of
/// the reverse map, keeps the two in agreement.
pub proof fn lemma_index_detach_keeps_consistent(
    view: Map<u64, Seq<u64>>,
    reverse: Map<u64, IVec2>,
    e: u64,
)
    requires
        index_consistent(view, reverse),
        reverse.contains_key(e),
    ensures
        index_consistent(detached(view, e, spec_pos_key(reverse[e])), reverse.remove(e)),
{
    let p0 = reverse[e];
    let k = spec_pos_key(p0);
    let list = entities_at(view, k);
    assert(list.contains(e));
    assert(view.contains_key(k));
    let rest = list.filter(other_than(e));
    lemma_filter_other_than(list, e);
    let v2 = detached(view, e, k);
    let r2 = reverse.remove(e);
    assert forall|x: u64, p: IVec2|
        #![trigger entities_at(v2, spec_pos_key(p)).contains(x), r2.contains_key(x), spec_pos_key(p)]
        (r2.contains_key(x) && r2[x] == p) <==> entities_at(v2, spec_pos_key(p)).contains(x) by {
        crate::grid::lemma_pos_key_injective(p, p0);
        if spec_pos_key(p) != k {
            assert(entities_at(v2, spec_pos_key(p)) == entities_at(view, spec_pos_key(p)));
        } else {
            assert(p == p0);
            assert(list.contains(x) == (reverse.contains_key(x) && reverse[x] == p0));
            assert(rest.contains(x) == (list.contains(x) && x != e));
            if rest.len() == 0 {
                assert(!rest.contains(x));
                assert(entities_at(v2, spec_pos_key(p)) =~= Seq::<u64>::empty());
            } else {
                assert(entities_at(v2, spec_pos_key(p)) == rest);
            }
        }
    }
    assert forall|kk: u64| #[trigger] v2.contains_key(kk) implies v2[kk].len() > 0
        && v2[kk].no_duplicates() && exists|p: IVec2| spec_pos_key(p) == kk by {
        if kk == k {
            assert(list == view[k]);
            assert(list.no_duplicates());
            assert(rest.no_duplicates());
            assert(spec_pos_key(p0) == kk);
        } else {
            assert(view.contains_key(kk));
        }
    }
}

/// Offset of the `o`-th of the eight tiles around a tile.
pub open spec fn around_offset(o: int) -> IVec2 {
    if o == 0 {
        IVec2 { x: 1, y: 0 }
    } else if o == 1 {
        IVec2 { x: -1i32, y: 0 }
    } else if o == 2 {
        IVec2 { x: 0, y: 1 }
    } else if o == 3 {
        IVec2 { x: 0, y: -1i32 }
    } else if o == 4 {
        IVec2 { x: 1, y: 1 }
    } else if o == 5 {
        IVec2 { x: 1, y: -1i32 }
    } else if o == 6 {
        IVec2 { x: -1i32, y: 1 }
    } else {
        IVec2 { x: -1i32, y: -1i32 }
    }
}

fn around(o: usize) -> (r: IVec2)
    requires
        o < 8,
    ensures
        r == around_offset(o as int),
{
    if o == 0 {
        IVec2 { x: 1, y: 0 }
    } else if o == 1 {
        IVec2 { x: -1, y: 0 }
    } else if o == 2 {
        IVec2 { x: 0, y: 1 }
    } else if o == 3 {
        IVec2 { x: 0, y: -1 }
    } else if o == 4 {
        IVec2 { x: 1, y: 1 }
    } else if o == 5 {
        IVec2 { x: 1, y: -1 }
    } else if o == 6 {
        IVec2 { x: -1, y: 1 }
    } else {
        IVec2 { x: -1, y: -1 }
    }
}

/// The entities recorded on the eight tiles around `pos`.
pub open spec fn neighbor_entities(pos: IVec2, view: Map<u64, Seq<u64>>) -> Set<u64> {
    Set::new(
        |x: u64|
            exists|o: int|
                0 <= o < 8 && #[trigger] entities_at(
                    view,
                    spec_pos_key(pos.spec_add(around_offset(o))),
                ).contains(x),
    )
}

/// Law: the cardinal mask has bit 1 exactly when the tile north of `pos`
/// (`y + 1`) joins up, bit 2 for the tile south (`y - 1`), bit 4 for the tile
/// east (`x + 1`) and bit 8 for the tile west (`x - 1`), and no other bit.
pub proof fn lemma_cardinal_mask_bits(
    pos: IVec2,
    smooth: IconSmooth,
    data: Map<u64, SmoothEntry>,
    index: Map<u64, Vec<u64>>,
)
    ensures
        ({
            let d = spec_cardinal_dirs(pos, smooth, data, index);
            &&& d < 16
            &&& (d & 1 != 0) == spec_has_matching_neighbor(
                IVec2 { x: pos.x, y: pos.y.wrapping_add(1) },
                smooth,
                data,
                index,
            )
            &&& (d & 2 != 0) == spec_has_matching_neighbor(
                IVec2 { x: pos.x, y: pos.y.wrapping_sub(1) },
                smooth,
                data,
                index,
            )
            &&& (d & 4 != 0) == spec_has_matching_neighbor(
                IVec2 { x: pos.x.wrapping_add(1), y: pos.y },
                smooth,
                data,
                index,
            )
            &&& (d & 8 != 0) == spec_has_matching_neighbor(
                IVec2 { x: pos.x.wrapping_sub(1), y: pos.y },
                smooth,
                data,
                index,
            )
        }),
{
    let n = spec_has_matching_neighbor(IVec2 { x: pos.x, y: pos.y.wrapping_add(1) }, smooth, data, index);
    let s = spec_has_matching_neighbor(IVec2 { x: pos.x, y: pos.y.wrapping_sub(1) }, smooth, data, index);
    let e = spec_has_matching_neighbor(IVec2 { x: pos.x.wrapping_add(1), y: pos.y }, smooth, data, index);
    let w = spec_has_matching_neighbor(IVec2 { x: pos.x.wrapping_sub(1), y: pos.y }, smooth, data, index);
    lemma_wrapping_steps(pos);
    assert(matches_at(pos, 0, 1, smooth, data, index) == n);
    assert(matches_at(pos, 0, -1, smooth, data, index) == s);
    assert(matches_at(pos, 1, 0, smooth, data, index) == e);
    assert(matches_at(pos, -1, 0, smooth, data, index) == w);
    let a: u8 = bit(n);
    let b: u8 = bit(s);
    let c: u8 = bit(e);
    let f: u8 = bit(w);
    let d: u8 = (a + 2 * b + 4 * c + 8 * f) as u8;
    assert(d == spec_cardinal_dirs(pos, smooth, data, index));
    assert(d < 16 && (d & 1 != 0) == (a == 1) && (d & 2 != 0) == (b == 1) && (d & 4 != 0) == (c
        == 1) && (d & 8 != 0) == (f == 1)) by (bit_vector)
        requires
            a <= 1,
            b <= 1,
            c <= 1,
            f <= 1,
            d == (a + 2 * b + 4 * c + 8 * f) as u8,
    ;
}

/// The neighbouring tiles, written with each coordinate stepped on its own.
proof fn lemma_wrapping_steps(pos: IVec2)
    ensures
        pos.spec_add(IVec2 { x: 0, y: 1 }) == (IVec2 { x: pos.x, y: pos.y.wrapping_add(1) }),
        pos.spec_add(IVec2 { x: 0, y: -1i32 }) == (IVec2 { x: pos.x, y: pos.y.wrapping_sub(1) }),
        pos.spec_add(IVec2 { x: 1, y: 0 }) == (IVec2 { x: pos.x.wrapping_add(1), y: pos.y }),
        pos.spec_add(IVec2 { x: -1i32, y: 0 }) == (IVec2 { x: pos.x.wrapping_sub(1), y: pos.y }),
        pos.spec_add(IVec2 { x: 1, y: 1 }) == (IVec2 {
            x: pos.x.wrapping_add(1),
            y: pos.y.wrapping_add(1),
        }),
        pos.spec_add(IVec2 { x: 1, y: -1i32 }) == (IVec2 {
            x: pos.x.wrapping_add(1),
            y: pos.y.wrapping_sub(1),
        }),
        pos.spec_add(IVec2 { x: -1i32, y: 1 }) == (IVec2 {
            x: pos.x.wrapping_sub(1),
            y: pos.y.wrapping_add(1),
        }),
        pos.spec_add(IVec2 { x: -1i32, y: -1i32 }) == (IVec2 {
            x: pos.x.wrapping_sub(1),
            y: pos.y.wrapping_sub(1),
        }),
        pos.x.wrapping_add(0) == pos.x,
        pos.y.wrapping_add(0) == pos.y,
{
}

/// Law: the south-east corner is closed exactly when the tiles east (`x + 1`),
/// south-east (`x + 1`, `y - 1`) and south (`y - 1`) of `pos` all join up.
pub proof fn lemma_diagonal_closed_sides(
    pos: IVec2,
    smooth: IconSmooth,
    data: Map<u64, SmoothEntry>,
    index: Map<u64, Vec<u64>>,
)
    ensures
        spec_diagonal_closed(pos, smooth, data, index) == (spec_has_matching_neighbor(
            IVec2 { x: pos.x.wrapping_add(1), y: pos.y },
            smooth,
            data,
            index,
        ) && spec_has_matching_neighbor(
            IVec2 { x: pos.x.wrapping_add(1), y: pos.y.wrapping_sub(1) },
            smooth,
            data,
            index,
        ) && spec_has_matching_neighbor(
            IVec2 { x: pos.x, y: pos.y.wrapping_sub(1) },
            smooth,
            data,
            index,
        )),
{
    lemma_wrapping_steps(pos);
}

/// The fill of a corner whose counter-clockwise side, diagonal and clockwise
/// side join up or not: 1, 2 and 4 added up.
pub open spec fn fill_of(ccw: bool, diag: bool, cw: bool) -> nat {
    (if ccw { 1nat } else { 0nat }) + (if diag { 2nat } else { 0nat }) + (if cw {
        4nat
    } else {
        0nat
    })
}

/// Law: each corner layer of `Corners` mode is visible, has no resource of its
/// own, and its state is the base followed by its fill. A corner's
/// counter-clockwise side is the side tile reached first going
/// counter-clockwise from its diagonal, its clockwise side the other one:
/// south-east (no rotation) from east, south-east, south; north-east (turned
/// counter-clockwise) from north, north-east, east; north-west (flipped) from
/// west, north-west, north; south-west (turned clockwise) from south,
/// south-west, west.
pub proof fn lemma_corner_layer_sides(
    pos: IVec2,
    smooth: IconSmooth,
    data: Map<u64, SmoothEntry>,
    index: Map<u64, Vec<u64>>,
)
    ensures
        ({
            let x0 = pos.x;
            let y0 = pos.y;
            let xe = pos.x.wrapping_add(1);
            let xw = pos.x.wrapping_sub(1);
            let yn = pos.y.wrapping_add(1);
            let ys = pos.y.wrapping_sub(1);
            let at = |x: i32, y: i32| spec_has_matching_neighbor(IVec2 { x, y }, smooth, data, index);
            let ls = spec_corner_layers(pos, smooth, data, index);
            let base = smooth.state_base@;
            &&& ls.len() == 4
            &&& forall|i: int|
                0 <= i < 4 ==> (#[trigger] ls[i]).visible && ls[i].rsi_path is None
            &&& ls[0].dir_offset == DirectionOffset::NoRotation
            &&& ls[1].dir_offset == DirectionOffset::CounterClockWise
            &&& ls[2].dir_offset == DirectionOffset::Flip
            &&& ls[3].dir_offset == DirectionOffset::ClockWise
            &&& ls[0].state == Some(base + decimal(fill_of(at(xe, y0), at(xe, ys), at(x0, ys))))
            &&& ls[1].state == Some(base + decimal(fill_of(at(x0, yn), at(xe, yn), at(xe, y0))))
            &&& ls[2].state == Some(base + decimal(fill_of(at(xw, y0), at(xw, yn), at(x0, yn))))
            &&& ls[3].state == Some(base + decimal(fill_of(at(x0, ys), at(xw, ys), at(xw, y0))))
        }),
{
    lemma_wrapping_steps(pos);
    assert forall|a: bool, b: bool, c: bool| #[trigger] corner_fill(a, b, c) as nat == fill_of(
        a,
        b,
        c,
    ) by {}
}

/// The offset of `dx` columns and `dy` rows.
pub open spec fn step(dx: i32, dy: i32) -> IVec2 {
    IVec2 { x: dx, y: dy }
}

/// Law: the eight tiles around a tile are exactly the tiles one step away in
/// each coordinate, other than the tile itself, each counted once.
pub proof fn lemma_around_is_the_ring()
    ensures
        forall|o: int|
            0 <= o < 8 ==> (-1 <= #[trigger] around_offset(o).x <= 1 && -1 <= around_offset(o).y
                <= 1 && !(around_offset(o).x == 0 && around_offset(o).y == 0)),
        forall|o1: int, o2: int|
            0 <= o1 < o2 < 8 ==> #[trigger] around_offset(o1) != #[trigger] around_offset(o2),
        forall|dx: i32, dy: i32|
            -1 <= dx <= 1 && -1 <= dy <= 1 && !(dx == 0 && dy == 0) ==> (#[trigger] step(dx, dy)
                == around_offset(0) || step(dx, dy) == around_offset(1) || step(dx, dy)
                == around_offset(2) || step(dx, dy) == around_offset(3) || step(dx, dy)
                == around_offset(4) || step(dx, dy) == around_offset(5) || step(dx, dy)
                == around_offset(6) || step(dx, dy) == around_offset(7)),
{
}

/// Law: an entity is among the neighbours of `pos` exactly when it is recorded
/// on one of the tiles one step away from `pos` in each coordinate, `pos`
/// itself excepted.
pub proof fn lemma_neighbor_entities_ring(pos: IVec2, view: Map<u64, Seq<u64>>, x: u64)
    ensures
        neighbor_entities(pos, view).contains(x) <==> exists|dx: i32, dy: i32|
            -1 <= dx <= 1 && -1 <= dy <= 1 && !(dx == 0 && dy == 0) && #[trigger] entities_at(
                view,
                spec_pos_key(pos.spec_add(step(dx, dy))),
            ).contains(x),
{
    lemma_around_is_the_ring();
    if neighbor_entities(pos, view).contains(x) {
        let o = choose|o: int|
            0 <= o < 8 && #[trigger] entities_at(
                view,
                spec_pos_key(pos.spec_add(around_offset(o))),
            ).contains(x);
        let d = around_offset(o);
        assert(-1 <= d.x <= 1 && -1 <= d.y <= 1 && !(d.x == 0 && d.y == 0));
        assert(step(d.x, d.y) == d);
        assert(entities_at(view, spec_pos_key(pos.spec_add(step(d.x, d.y)))).contains(x));
    }
    if exists|dx: i32, dy: i32|
        -1 <= dx <= 1 && -1 <= dy <= 1 && !(dx == 0 && dy == 0) && #[trigger] entities_at(
            view,
            spec_pos_key(pos.spec_add(step(dx, dy))),
        ).contains(x) {
        let (dx, dy) = choose|dx: i32, dy: i32|
            -1 <= dx <= 1 && -1 <= dy <= 1 && !(dx == 0 && dy == 0) && #[trigger] entities_at(
                view,
                spec_pos_key(pos.spec_add(step(dx, dy))),
            ).contains(x);
        assert(step(dx, dy) == step(dx, dy));
        if step(dx, dy) == around_offset(0) {
            assert(entities_at(view, spec_pos_key(pos.spec_add(around_offset(0)))).contains(x));
        } else if step(dx, dy) == around_offset(1) {
            assert(entities_at(view, spec_pos_key(pos.spec_add(around_offset(1)))).contains(x));
        } else if step(dx, dy) == around_offset(2) {
            assert(entities_at(view, spec_pos_key(pos.spec_add(around_offset(2)))).contains(x));
        } else if step(dx, dy) == around_offset(3) {
            assert(entities_at(view, spec_pos_key(pos.spec_add(around_offset(3)))).contains(x));
        } else if step(dx, dy) == around_offset(4) {
            assert(entities_at(view, spec_pos_key(pos.spec_add(around_offset(4)))).contains(x));
        } else if step(dx, dy) == around_offset(5) {
            assert(entities_at(view, spec_pos_key(pos.spec_add(around_offset(5)))).contains(x));
        } else if step(dx, dy) == around_offset(6) {
            assert(entities_at(view, spec_pos_key(pos.spec_add(around_offset(6)))).contains(x));
        } else {
            assert(entities_at(view, spec_pos_key(pos.spec_add(around_offset(7)))).contains(x));
        }
    }
}

/// The entities whose sprites must be recomputed, with the generation counter
/// that keeps an entity from being recomputed twice in one pass.
pub struct SmoothQueue {
    dirty: Vec<u64>,
    generation: u32,
    processed: HashMap<u64, u32>,
}

impl SmoothQueue {
    /// No entity is queued twice.
    pub closed spec fn wf(self) -> bool {
        self.dirty@.no_duplicates()
    }

    /// The queued entities, in the order they were queued; none occurs twice.
    pub closed spec fn dirty(self) -> Seq<u64> {
        self.dirty@
    }

    /// The number of the last pass.
    pub closed spec fn generation(self) -> u32 {
        self.generation
    }

    /// The pass in which each entity was last recomputed.
    pub closed spec fn processed(self) -> Map<u64, u32> {
        self.processed@
    }

    /// An empty queue at generation 0.
    pub fn new() -> (r: SmoothQueue)
        ensures
            r.wf(),
            r.dirty() == Seq::<u64>::empty(),
            r.generation() == 0,
            r.processed() == Map::<u64, u32>::empty(),
    {
        SmoothQueue { dirty: Vec::new(), generation: 0, processed: HashMap::new() }
    }

    /// The queued entities, in the order they were queued.
    pub fn dirty_entities(&self) -> (r: Vec<u64>)
        ensures
            r@ == self.dirty(),
    {
        let mut r: Vec<u64> = Vec::new();
        let mut i: usize = 0;
        while i < self.dirty.len()
            invariant
                0 <= i <= self.dirty@.len(),
                r@ == self.dirty@.take(i as int),
            decreases self.dirty@.len() - i,
        {
            r.push(self.dirty[i]);
            i = i + 1;
            assert(r@ =~= self.dirty@.take(i as int));
        }
        assert(self.dirty@.take(self.dirty@.len() as int) =~= self.dirty@);
        r
    }

    /// Queues entity `e`, unless it is queued already.
    pub fn mark_dirty(&mut self, e: u64)
        requires
            old(self).wf(),
        ensures
            final(self).wf(),
            final(self).dirty() == (if old(self).dirty().contains(e) {
                old(self).dirty()
            } else {
                old(self).dirty().push(e)
            }),
            final(self).generation() == old(self).generation(),
            final(self).processed() == old(self).processed(),
    {
        let mut i: usize = 0;
        while i < self.dirty.len()
            invariant
                0 <= i <= self.dirty@.len(),
                self.dirty@ == old(self).dirty@,
                self.generation == old(self).generation,
                self.processed@ == old(self).processed@,
                old(self).wf(),
                forall|j: int| 0 <= j < i ==> self.dirty@[j] != e,
            decreases self.dirty@.len() - i,
        {
            if self.dirty[i] == e {
                assert(self.dirty@.contains(e));
                return;
            }
            i = i + 1;
        }
        assert(!self.dirty@.contains(e));
        self.dirty.push(e);
    }

    /// Queues every entity on the eight tiles around `pos`.
    pub fn dirty_neighbors(&mut self, pos: IVec2, index: &SmoothSpatialIndex)
        requires
            old(self).wf(),
        ensures
            final(self).wf(),
            final(self).dirty().to_set() == old(self).dirty().to_set().union(
                neighbor_entities(pos, index.view_index()),
            ),
            final(self).generation() == old(self).generation(),
            final(self).processed() == old(self).processed(),
    {
        let ghost view = index.view_index();
        let mut o: usize = 0;
        while o < 8
            invariant
                0 <= o <= 8,
                self.wf(),
                view == index.view_index(),
                self.generation() == old(self).generation(),
                self.processed() == old(self).processed(),
                self.dirty().to_set() == old(self).dirty().to_set().union(
                    Set::new(
                        |x: u64|
                            exists|p: int|
                                0 <= p < o && #[trigger] entities_at(
                                    view,
                                    spec_pos_key(pos.spec_add(around_offset(p))),
                                ).contains(x),
                    ),
                ),
            decreases 8 - o,
        {
            let k = pos_key(pos.add(around(o)));
            let ghost before = self.dirty().to_set();
            match index.index.get(&k) {
                Some(entities) => {
                    assert(entities@ == entities_at(view, k));
                    let mut i: usize = 0;
                    while i < entities.len()
                        invariant
                            0 <= i <= entities@.len(),
                            self.wf(),
                            self.generation() == old(self).generation(),
                            self.processed() == old(self).processed(),
                            self.dirty().to_set() == before.union(
                                entities@.take(i as int).to_set(),
                            ),
                        decreases entities@.len() - i,
                    {
                        let ghost d0 = self.dirty();
                        self.mark_dirty(entities[i]);
                        proof {
                            lemma_push_to_set(d0, entities@[i as int]);
                            lemma_push_to_set(entities@.take(i as int), entities@[i as int]);
                            assert(entities@.take(i + 1) =~= entities@.take(i as int).push(
                                entities@[i as int],
                            ));
                            if d0.contains(entities@[i as int]) {
                                assert(d0.to_set().contains(entities@[i as int]));
                            }
                            assert(self.dirty().to_set() =~= before.union(
                                entities@.take(i + 1).to_set(),
                            ));
                        }
                        i = i + 1;
                    }
                    assert(entities@.take(entities@.len() as int) =~= entities@);
                },
                None => {
                    assert(entities_at(view, k) =~= Seq::<u64>::empty());
                },
            }
            o = o + 1;
            assert(self.dirty().to_set() =~= old(self).dirty().to_set().union(
                Set::new(
                    |x: u64|
                        exists|p: int|
                            0 <= p < o && #[trigger] entities_at(
                                view,
                                spec_pos_key(pos.spec_add(around_offset(p))),
                            ).contains(x),
                ),
            ));
        }
        assert(self.dirty().to_set() =~= old(self).dirty().to_set().union(
            neighbor_entities(pos, index.view_index()),
        ));
    }

    /// Entity `e` on `pos` moved or started smoothing: it and every smoothing
    /// entity around it are queued.
    pub fn queue_dirty(&mut self, e: u64, pos: IVec2, index: &SmoothSpatialIndex)
        requires
            old(self).wf(),
        ensures
            final(self).wf(),
            final(self).dirty().to_set() == old(self).dirty().to_set().insert(e).union(
                neighbor_entities(pos, index.view_index()),
            ),
            final(self).generation() == old(self).generation(),
            final(self).processed() == old(self).processed(),
    {
        self.mark_dirty(e);
        proof {
            if !old(self).dirty().contains(e) {
                lemma_push_to_set(old(self).dirty(), e);
            } else {
                assert(old(self).dirty().to_set().contains(e));
                assert(old(self).dirty().to_set() =~= old(self).dirty().to_set().insert(e));
            }
        }
        self.dirty_neighbors(pos, index);
    }
}


/// Entity `e` is recomputed in the pass numbered `generation`: it was not
/// recomputed in a pass with that number already, and it smooths and is enabled.
pub open spec fn qualifies(
    e: u64,
    generation: u32,
    processed: Map<u64, u32>,
    data: Map<u64, SmoothEntry>,
) -> bool {
    &&& !(processed.contains_key(e) && processed[e] == generation)
    &&& data.contains_key(e)
    &&& data[e].smooth.enabled
}

/// Entity `e` gets a new look in the pass numbered `generation`: it is
/// recomputed, has a sprite, and its mode touches the sprite.
pub open spec fn emits(
    e: u64,
    generation: u32,
    processed: Map<u64, u32>,
    data: Map<u64, SmoothEntry>,
    sprites: Set<u64>,
) -> bool {
    &&& qualifies(e, generation, processed, data)
    &&& sprites.contains(e)
    &&& data[e].smooth.mode != IconSmoothingMode::NoSprite
}

/// The new look of a smoothing entity, by its mode.
pub open spec fn spec_smooth_update(
    entry: SmoothEntry,
    data: Map<u64, SmoothEntry>,
    index: Map<u64, Vec<u64>>,
) -> SpriteUpdateView {
    match entry.smooth.mode {
        IconSmoothingMode::Corners => SpriteUpdateView::Layers(
            spec_corner_layers(entry.pos, entry.smooth, data, index),
        ),
        IconSmoothingMode::CardinalFlags => SpriteUpdateView::State(
            entry.smooth.state_base@ + decimal(
                spec_cardinal_dirs(entry.pos, entry.smooth, data, index) as nat,
            ),
        ),
        IconSmoothingMode::Diagonal => SpriteUpdateView::State(
            entry.smooth.state_base@ + decimal(
                bit(spec_diagonal_closed(entry.pos, entry.smooth, data, index)) as nat,
            ),
        ),
        IconSmoothingMode::NoSprite => SpriteUpdateView::State(Seq::empty()),
    }
}

/// An entity and its new look, as text.
pub open spec fn update_view(u: (u64, SpriteUpdate)) -> (u64, SpriteUpdateView) {
    (u.0, u.1@)
}

/// The updates of one pass over the queued entities `dirty`, in queue order.
pub open spec fn spec_pass_updates(
    dirty: Seq<u64>,
    generation: u32,
    processed: Map<u64, u32>,
    data: Map<u64, SmoothEntry>,
    sprites: Set<u64>,
    index: Map<u64, Vec<u64>>,
) -> Seq<(u64, SpriteUpdateView)> {
    dirty.filter(|e: u64| emits(e, generation, processed, data, sprites)).map_values(
        |e: u64| (e, spec_smooth_update(data[e], data, index)),
    )
}

/// Computes the new look of a smoothing entity, or nothing for `NoSprite`.
fn smooth_update(
    entry: &SmoothEntry,
    data: &HashMap<u64, SmoothEntry>,
    index: &SmoothSpatialIndex,
) -> (r: Option<SpriteUpdate>)
    ensures
        entry.smooth.mode == IconSmoothingMode::NoSprite ==> r is None,
        entry.smooth.mode != IconSmoothingMode::NoSprite ==> r is Some && r->0@
            == spec_smooth_update(*entry, data@, index.index@),
{
    match entry.smooth.mode {
        IconSmoothingMode::Corners => {
            let layers = calculate_corners(&entry.smooth, entry.pos, data, index);
            Some(SpriteUpdate::Layers(layers))
        },
        IconSmoothingMode::CardinalFlags => {
            Some(SpriteUpdate::State(calculate_cardinal(&entry.smooth, entry.pos, data, index)))
        },
        IconSmoothingMode::Diagonal => {
            Some(SpriteUpdate::State(calculate_diagonal(&entry.smooth, entry.pos, data, index)))
        },
        IconSmoothingMode::NoSprite => None,
    }
}

/// One smoothing pass. With nothing queued it does nothing. Otherwise the
/// generation advances (wrapping around), the queue is emptied, and every
/// queued entity that smooths, is enabled and was not already recomputed in a
/// pass with the new number is marked with that number; those that have a
/// sprite and a mode other than `NoSprite` get their new look, in queue order.
pub fn process_smooth_queue(
    queue: &mut SmoothQueue,
    data: &HashMap<u64, SmoothEntry>,
    sprites: &HashSet<u64>,
    index: &SmoothSpatialIndex,
) -> (r: Vec<(u64, SpriteUpdate)>)
    requires
        old(queue).wf(),
    ensures
        final(queue).wf(),
        old(queue).dirty().len() == 0 ==> {
            &&& r@.len() == 0
            &&& final(queue).dirty() == old(queue).dirty()
            &&& final(queue).generation() == old(queue).generation()
            &&& final(queue).processed() == old(queue).processed()
        },
        old(queue).dirty().len() > 0 ==> {
            let g = old(queue).generation().wrapping_add(1);
            &&& final(queue).generation() == g
            &&& final(queue).dirty() == Seq::<u64>::empty()
            &&& r@.map_values(|u: (u64, SpriteUpdate)| update_view(u)) == spec_pass_updates(
                old(queue).dirty(),
                g,
                old(queue).processed(),
                data@,
                sprites@,
                index.index@,
            )
            &&& forall|x: u64|
                #[trigger] final(queue).processed().contains_key(x) <==> (old(
                    queue,
                ).processed().contains_key(x) || (old(queue).dirty().contains(x) && qualifies(
                    x,
                    g,
                    old(queue).processed(),
                    data@,
                )))
            &&& forall|x: u64| #[trigger]
                final(queue).processed().contains_key(x) ==> final(queue).processed()[x] == if old(
                    queue,
                ).dirty().contains(x) && qualifies(x, g, old(queue).processed(), data@) {
                    g
                } else {
                    old(queue).processed()[x]
                }
        },
{
    let mut out: Vec<(u64, SpriteUpdate)> = Vec::new();
    if queue.dirty.len() == 0 {
        return out;
    }
    queue.generation = queue.generation.wrapping_add(1);
    let g = queue.generation;
    let mut dirty: Vec<u64> = Vec::new();
    std::mem::swap(&mut dirty, &mut queue.dirty);
    let ghost d = dirty@;
    let ghost pm = old(queue).processed();
    let ghost pred = |e: u64| emits(e, g, pm, data@, sprites@);
    let ghost f = |e: u64| (e, spec_smooth_update(data@[e], data@, index.index@));
    let mut i: usize = 0;
    while i < dirty.len()
        invariant
            0 <= i <= d.len(),
            dirty@ == d,
            d == old(queue).dirty(),
            d.no_duplicates(),
            pm == old(queue).processed(),
            queue.generation == g,
            queue.dirty@ == Seq::<u64>::empty(),
            pred == (|e: u64| emits(e, g, pm, data@, sprites@)),
            f == (|e: u64| (e, spec_smooth_update(data@[e], data@, index.index@))),
            out@.map_values(|u: (u64, SpriteUpdate)| update_view(u)) == d.take(i as int).filter(
                pred,
            ).map_values(f),
            forall|x: u64|
                #[trigger] queue.processed@.contains_key(x) <==> (pm.contains_key(x) || (d.take(
                    i as int,
                ).contains(x) && qualifies(x, g, pm, data@))),
            forall|x: u64| #[trigger]
                queue.processed@.contains_key(x) ==> queue.processed@[x] == if d.take(
                    i as int,
                ).contains(x) && qualifies(x, g, pm, data@) {
                    g
                } else {
                    pm[x]
                },
        decreases d.len() - i,
    {
        let e = dirty[i];
        proof {
            let t0 = d.take(i as int);
            let t1 = d.take(i + 1);
            assert(t1 =~= t0.push(e));
            assert(t1.drop_last() =~= t0);
            reveal_with_fuel(Seq::<_>::filter, 1);
            assert(!t0.contains(e)) by {
                if t0.contains(e) {
                    let j = choose|j: int| 0 <= j < t0.len() && t0[j] == e;
                    assert(d[j] == d[i as int]);
                }
            }
            assert forall|x: u64| #[trigger] t1.contains(x) <==> (t0.contains(x) || x == e) by {
                if t1.contains(x) && x != e {
                    let j = choose|j: int| 0 <= j < t1.len() && t1[j] == x;
                    assert(t0[j] == x);
                }
                if t0.contains(x) {
                    let j = choose|j: int| 0 <= j < t0.len() && t0[j] == x;
                    assert(t1[j] == x);
                }
                if x == e {
                    assert(t1[i as int] == x);
                }
            }
        }
        let ghost out0 = out@;
        let skip = match queue.processed.get(&e) {
            Some(p) => *p == g,
            None => false,
        };
        if !skip {
            match data.get(&e) {
                Some(entry) => {
                    if entry.smooth.enabled {
                        queue.processed.insert(e, g);
                        if sprites.contains(&e) {
                            match smooth_update(entry, data, index) {
                                Some(u) => {
                                    out.push((e, u));
                                    assert(out@.map_values(
                                        |u: (u64, SpriteUpdate)| update_view(u),
                                    ) =~= out0.map_values(
                                        |u: (u64, SpriteUpdate)| update_view(u),
                                    ).push(f(e)));
                                },
                                None => {},
                            }
                        }
                    }
                },
                None => {},
            }
        }
        proof {
            let t0 = d.take(i as int);
            let t1 = d.take(i + 1);
            assert(t1.drop_last() =~= t0);
            assert(t1.last() == e);
            reveal_with_fuel(Seq::<_>::filter, 1);
            assert(t1.filter(pred) == if pred(e) {
                t0.filter(pred).push(e)
            } else {
                t0.filter(pred)
            });
            assert(pred(e) == emits(e, g, pm, data@, sprites@));
            if pred(e) {
                assert(t0.filter(pred).push(e).map_values(f) =~= t0.filter(pred).map_values(
                    f,
                ).push(f(e)));
            }
            assert(out@.map_values(|u: (u64, SpriteUpdate)| update_view(u)) =~= t1.filter(
                pred,
            ).map_values(f));
        }
        i = i + 1;
    }
    proof {
        assert(d.take(d.len() as int) =~= d);
    }
    out
}


proof fn lemma_filter_keeps_distinct(s: Seq<u64>, pred: spec_fn(u64) -> bool)
    requires
        s.no_duplicates(),
    ensures
        s.filter(pred).no_duplicates(),
        forall|x: u64| #[trigger] s.filter(pred).contains(x) ==> s.contains(x),
    decreases s.len(),
{
    reveal_with_fuel(Seq::<_>::filter, 1);
    if s.len() > 0 {
        let t = s.drop_last();
        assert(t.no_duplicates()) by {
            assert forall|i: int, j: int| 0 <= i < t.len() && 0 <= j < t.len() && i != j implies t[i]
                != t[j] by {
                assert(s[i] != s[j]);
            }
        }
        lemma_filter_keeps_distinct(t, pred);
        let ft = t.filter(pred);
        assert forall|x: u64| #[trigger] t.contains(x) implies s.contains(x) by {
            let i = choose|i: int| 0 <= i < t.len() && t[i] == x;
            assert(s[i] == x);
        }
        assert(s.contains(s.last())) by {
            assert(s[s.len() - 1] == s.last());
        }
        if pred(s.last()) {
            assert(!ft.contains(s.last())) by {
                if ft.contains(s.last()) {
                    assert(t.contains(s.last()));
                    let i = choose|i: int| 0 <= i < t.len() && t[i] == s.last();
                    assert(s[i] == s[s.len() - 1]);
                }
            }
            assert forall|i: int, j: int|
                0 <= i < ft.push(s.last()).len() && 0 <= j < ft.push(s.last()).len() && i
                    != j implies ft.push(s.last())[i] != ft.push(s.last())[j] by {
                if i < ft.len() && j < ft.len() {
                } else if i < ft.len() {
                    assert(ft.contains(ft[i]));
                } else if j < ft.len() {
                    assert(ft.contains(ft[j]));
                }
            }
            assert forall|x: u64| #[trigger] ft.push(s.last()).contains(x) implies s.contains(x) by {
                let i = choose|i: int| 0 <= i < ft.push(s.last()).len() && ft.push(s.last())[i] == x;
                if i < ft.len() {
                    assert(ft[i] == x);
                    assert(ft.contains(x));
                }
            }
        }
    }
}

/// Law: a pass recomputes each queued entity at most once, and only queued
/// entities: the entities of its updates are queued ones, none twice.
pub proof fn lemma_pass_updates_distinct(
    dirty: Seq<u64>,
    generation: u32,
    processed: Map<u64, u32>,
    data: Map<u64, SmoothEntry>,
    sprites: Set<u64>,
    index: Map<u64, Vec<u64>>,
)
    requires
        dirty.no_duplicates(),
    ensures
        ({
            let u = spec_pass_updates(dirty, generation, processed, data, sprites, index);
            &&& forall|i: int, j: int| 0 <= i < u.len() && 0 <= j < u.len() && i != j ==> u[i].0 != u[j].0
            &&& forall|i: int| 0 <= i < u.len() ==> dirty.contains(#[trigger] u[i].0)
        }),
{
    let pred = |e: u64| emits(e, generation, processed, data, sprites);
    lemma_filter_keeps_distinct(dirty, pred);
    let f = dirty.filter(pred);
    let u = spec_pass_updates(dirty, generation, processed, data, sprites, index);
    assert forall|i: int| 0 <= i < u.len() implies dirty.contains(#[trigger] u[i].0) by {
        assert(u[i].0 == f[i]);
        assert(f.contains(f[i]));
    }
    assert forall|i: int, j: int| 0 <= i < u.len() && 0 <= j < u.len() && i != j implies u[i].0
        != u[j].0 by {
        assert(u[i].0 == f[i]);
        assert(u[j].0 == f[j]);
    }
}

} // verus!
