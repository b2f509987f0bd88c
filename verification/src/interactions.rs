//! What the editor panels report back after a frame of user input: each widget returns an
//! interaction, and the results of several widgets are combined into one.
use vstd::prelude::*;

verus! {

/// What happened to a clip of the timeline panel this frame.
#[derive(Debug, Clone, Copy, PartialEq, Eq, Structural)]
pub enum ClipInteraction {
    Idle,
    Moving,
    ResizingLeft,
    ResizingRight,
}

impl ClipInteraction {
    /// The later interaction wins, unless it is `Idle`.
    pub fn and(self, other: ClipInteraction) -> (r: Self)
        ensures
            r == clip_and(self, other),
    {
        match other {
            ClipInteraction::Idle => self,
            _ => other,
        }
    }
}

/// What happened to an animated property of the motion editor this frame.
#[derive(Debug, Clone, Copy, PartialEq, Eq, Structural)]
pub enum PropertyInteraction {
    Idle,
    Delete(usize),
}

impl PropertyInteraction {
    /// The earlier interaction wins, unless it is `Idle`.
    pub fn union(self, other: PropertyInteraction) -> (r: Self)
        ensures
            r == property_union(self, other),
    {
        match self {
            PropertyInteraction::Idle => other,
            _ => self,
        }
    }
}

/// What happened to a keyframe of the motion editor this frame; `Deleted(None)` is the start
/// keyframe of a field.
#[derive(Debug, Clone, Copy, PartialEq, Eq, Structural)]
pub enum KeyframeInteraction {
    Idle,
    Deleted(Option<usize>),
}

impl KeyframeInteraction {
    /// The earlier interaction wins, unless it is `Idle`.
    pub fn union(self, other: KeyframeInteraction) -> (r: Self)
        ensures
            r == keyframe_union(self, other),
    {
        match self {
            KeyframeInteraction::Idle => other,
            _ => self,
        }
    }
}

/// The result of combining clip interactions in order with `and`.
pub open spec fn clip_and(a: ClipInteraction, b: ClipInteraction) -> ClipInteraction {
    if b is Idle {
        a
    } else {
        b
    }
}

/// The result of combining property interactions in order with `union`.
pub open spec fn property_union(a: PropertyInteraction, b: PropertyInteraction) -> PropertyInteraction {
    if a is Idle {
        b
    } else {
        a
    }
}

/// The result of combining keyframe interactions in order with `union`.
pub open spec fn keyframe_union(a: KeyframeInteraction, b: KeyframeInteraction) -> KeyframeInteraction {
    if a is Idle {
        b
    } else {
        a
    }
}

/// Combining clip interactions with `and` does not depend on how the combinations are grouped,
/// and `Idle` changes nothing on either side: a frame's widgets may be combined in any grouping.
pub proof fn law_clip_and_monoid(a: ClipInteraction, b: ClipInteraction, c: ClipInteraction)
    ensures
        clip_and(clip_and(a, b), c) == clip_and(a, clip_and(b, c)),
        clip_and(ClipInteraction::Idle, a) == a,
        clip_and(a, ClipInteraction::Idle) == a,
{
}

/// Combining property interactions with `union` does not depend on how the combinations are
/// grouped, and `Idle` changes nothing on either side.
pub proof fn law_property_union_monoid(
    a: PropertyInteraction,
    b: PropertyInteraction,
    c: PropertyInteraction,
)
    ensures
        property_union(property_union(a, b), c) == property_union(a, property_union(b, c)),
        property_union(PropertyInteraction::Idle, a) == a,
        property_union(a, PropertyInteraction::Idle) == a,
{
}

/// Combining keyframe interactions with `union` does not depend on how the combinations are
/// grouped, and `Idle` changes nothing on either side.
pub proof fn law_keyframe_union_monoid(
    a: KeyframeInteraction,
    b: KeyframeInteraction,
    c: KeyframeInteraction,
)
    ensures
        keyframe_union(keyframe_union(a, b), c) == keyframe_union(a, keyframe_union(b, c)),
        keyframe_union(KeyframeInteraction::Idle, a) == a,
        keyframe_union(a, KeyframeInteraction::Idle) == a,
{
}

} // verus!
