//! Sprite rendering decisions on the client: the render data of each layer of
//! a composite sprite, and whether a sprite is shown and with which resource
//! and state.
use crate::smoothing::{DirectionOffset, Layer, opt_view};
use vstd::prelude::*;

verus! {

/// A composite sprite: a resource and state of its own, and optional layers
/// that fall back to them.
pub struct ComplexSprite {
    pub rsi_path: Option<String>,
    pub state: Option<String>,
    pub layers: Vec<Layer>,
    pub visible: bool,
}

/// What a child sprite of a layer is drawn with.
pub struct LayerRenderData {
    pub rsi_path: String,
    pub state: String,
    pub visible: bool,
    /// Quarter turns counter-clockwise.
    pub turns: i8,
}

/// Quarter turns counter-clockwise for a direction offset.
pub open spec fn spec_quarter_turns(o: DirectionOffset) -> i8 {
    match o {
        DirectionOffset::NoRotation => 0,
        DirectionOffset::ClockWise => -1i8,
        DirectionOffset::CounterClockWise => 1,
        DirectionOffset::Flip => 2,
    }
}

/// Gives the quarter turns counter-clockwise for a direction offset.
pub fn quarter_turns(o: DirectionOffset) -> (r: i8)
    ensures
        r == spec_quarter_turns(o),
{
    match o {
        DirectionOffset::NoRotation => 0,
        DirectionOffset::ClockWise => -1,
        DirectionOffset::CounterClockWise => 1,
        DirectionOffset::Flip => 2,
    }
}

/// The text of an optional string, empty where there is none.
pub open spec fn or_empty(s: Option<Seq<char>>) -> Seq<char> {
    match s {
        Some(t) => t,
        None => Seq::empty(),
    }
}

/// The render data of layer `l` of a sprite whose own resource and state are
/// `base_rsi` and `base_state`: the layer's own where it has them.
pub open spec fn spec_layer_data(l: Layer, base_rsi: Seq<char>, base_state: Seq<char>) -> (
    Seq<char>,
    Seq<char>,
    bool,
    i8,
) {
    (
        match l.rsi_path {
            Some(r) => r@,
            None => base_rsi,
        },
        match l.state {
            Some(s) => s@,
            None => base_state,
        },
        l.visible,
        spec_quarter_turns(l.dir_offset),
    )
}

/// The contents of `LayerRenderData`.
pub open spec fn layer_data_view(d: LayerRenderData) -> (Seq<char>, Seq<char>, bool, i8) {
    (d.rsi_path@, d.state@, d.visible, d.turns)
}

fn clone_or(s: &Option<String>, fallback: &String) -> (r: String)
    ensures
        r@ == match s {
            Some(t) => t@,
            None => fallback@,
        },
{
    match s {
        Some(t) => t.clone(),
        None => fallback.clone(),
    }
}

/// The render data of every layer of `cs`, in layer order.
pub fn resolve_layers(cs: &ComplexSprite) -> (r: Vec<LayerRenderData>)
    ensures
        r@.len() == cs.layers@.len(),
        forall|i: int|
            0 <= i < r@.len() ==> #[trigger] layer_data_view(r@[i]) == spec_layer_data(
                cs.layers@[i],
                or_empty(opt_view(cs.rsi_path)),
                or_empty(opt_view(cs.state)),
            ),
{
    let base_rsi = match &cs.rsi_path {
        Some(r) => r.clone(),
        None => String::new(),
    };
    let base_state = match &cs.state {
        Some(s) => s.clone(),
        None => String::new(),
    };
    let mut r: Vec<LayerRenderData> = Vec::new();
    let mut i: usize = 0;
    while i < cs.layers.len()
        invariant
            0 <= i <= cs.layers@.len(),
            r@.len() == i,
            base_rsi@ == or_empty(opt_view(cs.rsi_path)),
            base_state@ == or_empty(opt_view(cs.state)),
            forall|j: int|
                0 <= j < i ==> #[trigger] layer_data_view(r@[j]) == spec_layer_data(
                    cs.layers@[j],
                    or_empty(opt_view(cs.rsi_path)),
                    or_empty(opt_view(cs.state)),
                ),
        decreases cs.layers@.len() - i,
    {
        let layer = &cs.layers[i];
        r.push(
            LayerRenderData {
                rsi_path: clone_or(&layer.rsi_path, &base_rsi),
                state: clone_or(&layer.state, &base_state),
                visible: layer.visible,
                turns: quarter_turns(layer.dir_offset),
            },
        );
        i = i + 1;
    }
    r
}

/// Whether a sprite shows anything, and with which resource and state.
pub enum SpriteDecision {
    /// No sprite; the entity is hidden.
    Hide,
    /// The sprite of this state of this resource.
    Show { rsi: String, state: String },
}

/// The contents of a `SpriteDecision`: the resource and state shown, if any.
pub open spec fn decision_view(d: SpriteDecision) -> Option<(Seq<char>, Seq<char>)> {
    match d {
        SpriteDecision::Hide => None,
        SpriteDecision::Show { rsi, state } => Some((rsi@, state@)),
    }
}

/// A sprite is shown when it is visible and has a resource and a state.
pub open spec fn spec_assign(visible: bool, rsi: Seq<char>, state: Seq<char>) -> Option<
    (Seq<char>, Seq<char>),
> {
    if !visible || rsi.len() == 0 || state.len() == 0 {
        None
    } else {
        Some((rsi, state))
    }
}

/// Decides whether a sprite with this visibility, resource and state is shown.
pub fn assign_sprite(visible: bool, rsi: &str, state: &str) -> (r: SpriteDecision)
    ensures
        decision_view(r) == spec_assign(visible, rsi@, state@),
{
    if !visible || rsi.unicode_len() == 0 || state.unicode_len() == 0 {
        SpriteDecision::Hide
    } else {
        SpriteDecision::Show { rsi: String::from_str(rsi), state: String::from_str(state) }
    }
}

/// The decision for a sprite without layers. Without a resource it is hidden;
/// otherwise its state is its own, or else `first_state`, the resource's first
/// state as the registry gives it; an empty state hides it.
pub open spec fn spec_base_decision(cs: ComplexSprite, first_state: Option<Seq<char>>) -> Option<
    (Seq<char>, Seq<char>),
> {
    match cs.rsi_path {
        None => None,
        Some(rsi) => {
            let state = match cs.state {
                Some(s) => s@,
                None => or_empty(first_state),
            };
            if state.len() == 0 {
                None
            } else {
                spec_assign(cs.visible, rsi@, state)
            }
        },
    }
}

/// Decides the sprite of a composite sprite without layers; `first_state` is
/// the first state of its resource, asked for where it has no state of its own.
pub fn base_sprite_decision(cs: &ComplexSprite, first_state: Option<String>) -> (r: SpriteDecision)
    ensures
        decision_view(r) == spec_base_decision(*cs, opt_view(first_state)),
{
    match &cs.rsi_path {
        None => SpriteDecision::Hide,
        Some(rsi) => {
            let state = match &cs.state {
                Some(s) => s.clone(),
                None => match first_state {
                    Some(f) => f,
                    None => String::new(),
                },
            };
            if state.unicode_len() == 0 {
                SpriteDecision::Hide
            } else {
                assign_sprite(cs.visible, rsi.as_str(), state.as_str())
            }
        },
    }
}

/// What becomes of a composite sprite's own sprite when it is added or
/// changed: a sprite with layers is drawn by its layers' children, so its own
/// sprite is left alone (`None`); one without layers gets the decision of
/// `base_sprite_decision`.
pub fn base_sprite_update(cs: &ComplexSprite, first_state: Option<String>) -> (r: Option<
    SpriteDecision,
>)
    ensures
        cs.layers@.len() > 0 ==> r is None,
        cs.layers@.len() == 0 ==> (r matches Some(d) && decision_view(d) == spec_base_decision(
            *cs,
            opt_view(first_state),
        )),
{
    if cs.layers.len() > 0 {
        None
    } else {
        Some(base_sprite_decision(cs, first_state))
    }
}

/// The decision for a layer's child sprite: its state, or else `first_state`,
/// the first state of its resource; an empty state hides it.
pub open spec fn spec_layer_decision(d: LayerRenderData, first_state: Option<Seq<char>>) -> Option<
    (Seq<char>, Seq<char>),
> {
    let state = if d.state@.len() == 0 {
        or_empty(first_state)
    } else {
        d.state@
    };
    if state.len() == 0 {
        None
    } else {
        spec_assign(d.visible, d.rsi_path@, state)
    }
}

/// Decides the sprite of a layer's child; `first_state` is the first state of
/// its resource, asked for where the layer's state is empty.
pub fn layer_sprite_decision(d: &LayerRenderData, first_state: Option<String>) -> (r:
    SpriteDecision)
    ensures
        decision_view(r) == spec_layer_decision(*d, opt_view(first_state)),
{
    let state = if d.state.unicode_len() == 0 {
        match first_state {
            Some(f) => f,
            None => String::new(),
        }
    } else {
        d.state.clone()
    };
    if state.unicode_len() == 0 {
        SpriteDecision::Hide
    } else {
        assign_sprite(d.visible, d.rsi_path.as_str(), state.as_str())
    }
}

/// The decision for an item's sprite: shown with its resource and state when
/// it has both, non-empty; its visibility flag is not consulted.
pub open spec fn spec_item_decision(cs: ComplexSprite) -> Option<(Seq<char>, Seq<char>)> {
    let rsi = or_empty(opt_view(cs.rsi_path));
    let state = or_empty(opt_view(cs.state));
    if rsi.len() == 0 || state.len() == 0 {
        None
    } else {
        Some((rsi, state))
    }
}

/// Decides the sprite of an item.
pub fn item_sprite_decision(cs: &ComplexSprite) -> (r: SpriteDecision)
    ensures
        decision_view(r) == spec_item_decision(*cs),
{
    let rsi = match &cs.rsi_path {
        Some(r) => r.clone(),
        None => String::new(),
    };
    let state = match &cs.state {
        Some(s) => s.clone(),
        None => String::new(),
    };
    if rsi.unicode_len() == 0 || state.unicode_len() == 0 {
        SpriteDecision::Hide
    } else {
        SpriteDecision::Show { rsi, state }
    }
}

} // verus!
