//! Sprite resources (RSI): the metadata of a resource's states and the atlas
//! layout that one state's image is cut into.
use crate::smoothing::opt_view;
use crate::text::text_eq;
use vstd::prelude::*;

verus! {

/// Size of one frame of a resource, in pixels.
#[derive(Clone, Copy, Debug, PartialEq, Eq, Structural)]
pub struct RsiSize {
    pub x: u32,
    pub y: u32,
}

/// One state of a resource: its name, how many directions it is drawn in, and
/// the number of frames in each of its delay lists.
pub struct RsiStateMeta {
    pub name: String,
    pub directions: u8,
    pub delay_lengths: Vec<usize>,
}

/// The metadata of a resource.
pub struct RsiMeta {
    pub size: RsiSize,
    pub states: Vec<RsiStateMeta>,
}

/// The number of directions of a state whose metadata gives none.
pub fn default_dirs() -> (r: u8)
    ensures
        r == 1,
{
    1
}

/// The name of the first state of the resource, if its metadata was read and has a state.
pub open spec fn spec_first_state(meta: Option<RsiMeta>) -> Option<Seq<char>> {
    match meta {
        Some(m) => if m.states@.len() > 0 {
            Some(m.states@[0].name@)
        } else {
            None
        },
        None => None,
    }
}

/// Gives the name of the first state of the resource.
pub fn get_first_state(meta: &Option<RsiMeta>) -> (r: Option<String>)
    ensures
        opt_view(r) == spec_first_state(*meta),
{
    match meta {
        Some(m) => {
            if m.states.len() > 0 {
                Some(m.states[0].name.clone())
            } else {
                None
            }
        },
        None => None,
    }
}

/// How a state's image is cut into atlas frames: one row of `columns` frames of
/// `size` each.
#[derive(Clone, Copy, Debug, PartialEq, Eq, Structural)]
pub struct StateLayout {
    pub size: RsiSize,
    pub columns: u32,
    pub rows: u32,
}

/// The first state named `state`, by its place in the metadata.
pub open spec fn is_state_of(meta: RsiMeta, state: Seq<char>, i: int) -> bool {
    &&& 0 <= i < meta.states@.len()
    &&& meta.states@[i].name@ == state
    &&& forall|j: int| 0 <= j < i ==> #[trigger] meta.states@[j].name@ != state
}

/// Frames of a state: the length of its first delay list, 1 without one.
pub open spec fn spec_frames(st: RsiStateMeta) -> usize {
    if st.delay_lengths@.len() > 0 {
        st.delay_lengths@[0]
    } else {
        1
    }
}

/// The atlas layout of state `st`: one column per direction and frame, the
/// count cut to 32 bits as the atlas takes it.
pub open spec fn spec_layout(meta: RsiMeta, st: RsiStateMeta) -> StateLayout {
    StateLayout {
        size: meta.size,
        columns: (st.directions as u32).wrapping_mul(spec_frames(st) as u32),
        rows: 1,
    }
}

/// Finds the first state named `state` and gives its place and atlas layout.
pub fn state_layout(meta: &RsiMeta, state: &str) -> (r: Option<(usize, StateLayout)>)
    ensures
        match r {
            Some((i, l)) => is_state_of(*meta, state@, i as int) && l == spec_layout(
                *meta,
                meta.states@[i as int],
            ),
            None => forall|j: int|
                0 <= j < meta.states@.len() ==> #[trigger] meta.states@[j].name@ != state@,
        },
{
    let mut i: usize = 0;
    while i < meta.states.len()
        invariant
            0 <= i <= meta.states@.len(),
            forall|j: int| 0 <= j < i ==> #[trigger] meta.states@[j].name@ != state@,
        decreases meta.states@.len() - i,
    {
        let st = &meta.states[i];
        if text_eq(st.name.as_str(), state) {
            let frames: usize = if st.delay_lengths.len() > 0 {
                st.delay_lengths[0]
            } else {
                1
            };
            let columns = (st.directions as u32).wrapping_mul(frames as u32);
            return Some((i, StateLayout { size: meta.size, columns, rows: 1 }));
        }
        i = i + 1;
    }
    None
}

/// The asset path of the image of state `name` of resource `rsi_id`.
pub fn state_image_path(rsi_id: &str, name: &str) -> (r: String)
    ensures
        r@ == "Textures/"@ + rsi_id@ + "/"@ + name@ + ".png"@,
{
    let mut s = String::from_str("Textures/");
    s.append(rsi_id);
    s.append("/");
    s.append(name);
    s.append(".png");
    s
}

} // verus!
