//! The decisions of the editor's timeline and motion editor panels, apart from drawing.
use vstd::prelude::*;
use crate::editor_state::{AudioCommand, EditorState};
use crate::clip_map::ClipPropertyValue;
use crate::timeline::{AnimatedPropertyField, Clip, ClipSource, Timeline, Track, CurveSegment, key_time, PropertyDefault, PropertyGroup, PropertyValue};
use crate::timeline_interactions::{
    can_fit_clip, clear_at, drop_selected, lemma_select_keeps_extent, select_clip, select_result, fits_on_track, frames_fit_i32, get_snapping_points, insert_clip,
    is_snap_offset, is_snapped, snap_offset, room_after, strictly_sorted, trim_empty_tracks, insert_keyframe, keyframe_insertable,
    keyframe_set, delete_keyframe, keyframe_deleted,
};
use crate::placement::unselected_prefix;
use crate::interactions::{ClipInteraction, KeyframeInteraction, PropertyInteraction};
use crate::timeline::field_fits;
use crate::placement::Placed;
use crate::timeline::{
    end_at, end_of, insert_index, placed, placements, start_of, timeline_fits, track_fits, AnimatedProperty,
    AnimatedPropertyTarget, AnimationClip,
};

verus! {

/// The clips of each track.
pub open spec fn track_clips(t: Timeline) -> Seq<Seq<Clip>> {
    t.tracks@.map_values(|tr: Track| tr.clips@)
}

/// The tracks with an empty track added at the end unless the last one is empty, then at the
/// start unless the first one is empty.
pub open spec fn with_open_ends(tracks: Seq<Seq<Clip>>) -> Seq<Seq<Clip>> {
    let t1 = if tracks.len() == 0 || tracks.last().len() != 0 {
        tracks.push(Seq::empty())
    } else {
        tracks
    };
    if t1[0].len() != 0 {
        seq![Seq::empty()] + t1
    } else {
        t1
    }
}

/// Starts inserting a clip of schema `schema`: the timeline gets an empty track at each end
/// where it has none, so that the clip can go on a new track.
pub fn start_inserting_schema(timeline: &mut Timeline, editor_state: &mut EditorState, schema: usize)
    ensures
        track_clips(*final(timeline)) == with_open_ends(track_clips(*old(timeline))),
        *final(editor_state) == (EditorState { insert_clip_schema: Some(schema), ..*old(editor_state) }),
{
    let ghost before = track_clips(*timeline);
    let n = timeline.tracks.len();
    let insert_at_end = if n > 0 {
        timeline.tracks[n - 1].clips.len() != 0
    } else {
        true
    };
    if insert_at_end {
        timeline.tracks.push(Track::default());
        proof {
            assert(timeline.tracks@[n as int].clips@ =~= Seq::<Clip>::empty());
            assert(track_clips(*timeline) =~= before.push(Seq::empty()));
        }
    }
    let ghost t1 = track_clips(*timeline);
    let ghost tracks1 = timeline.tracks@;
    let insert_at_start = timeline.tracks[0].clips.len() != 0;
    if insert_at_start {
        timeline.tracks.insert(0, Track::default());
        proof {
            assert(timeline.tracks@[0].clips@ =~= Seq::<Clip>::empty());
            assert forall|i: int| 0 <= i < t1.len() implies track_clips(*timeline)[i + 1] == t1[i] by {
                assert(timeline.tracks@[i + 1] == tracks1[i]);
            }
            assert(track_clips(*timeline) =~= seq![Seq::<Clip>::empty()] + t1);
        }
    }
    editor_state.insert_clip_schema = Some(schema);
}

/// Deletes every selected clip (the timeline's answer to the delete key); the other clips stay
/// where they are.
pub fn delete_selected_clips(timeline: &mut Timeline)
    requires
        timeline_fits(*old(timeline)),
    ensures
        final(timeline).tracks@.len() == old(timeline).tracks@.len(),
        timeline_fits(*final(timeline)),
        forall|k: int|
            0 <= k < old(timeline).tracks@.len() ==> #[trigger] placements(final(timeline).tracks@[k].clips@)
                == unselected_prefix(
                placements(old(timeline).tracks@[k].clips@),
                old(timeline).tracks@[k].clips@.len() as int,
            ),
{
    let ghost o = *timeline;
    let n = timeline.tracks.len();
    let mut k: usize = 0;
    while k < n
        invariant
            n == o.tracks@.len(),
            timeline.tracks@.len() == n,
            k <= n,
            timeline_fits(o),
            forall|kk: int| k <= kk < n ==> #[trigger] timeline.tracks@[kk] == o.tracks@[kk],
            forall|kk: int|
                0 <= kk < k ==> #[trigger] placements(timeline.tracks@[kk].clips@) == unselected_prefix(
                    placements(o.tracks@[kk].clips@),
                    o.tracks@[kk].clips@.len() as int,
                ) && track_fits(timeline.tracks@[kk].clips@),
        decreases n - k,
    {
        proof {
            assert(track_fits(o.tracks@[k as int].clips@));
        }
        drop_selected(&mut timeline.tracks[k]);
        k = k + 1;
    }
    proof {
        assert forall|kk: int| 0 <= kk < n implies #[trigger] track_fits(timeline.tracks@[kk].clips@) by {
            assert(placements(timeline.tracks@[kk].clips@) == unselected_prefix(
                placements(o.tracks@[kk].clips@),
                o.tracks@[kk].clips@.len() as int,
            ));
        }
    }
}

/// The default values of a clip's properties, group by group.
pub open spec fn default_values(c: Clip) -> Seq<Seq<PropertyValue>> {
    c.property_groups@.map_values(|g: PropertyGroup| g.defaults@.map_values(|d: PropertyDefault| d.value))
}

/// The contents of a list of value lists.
pub open spec fn values_view(v: Seq<Vec<PropertyValue>>) -> Seq<Seq<PropertyValue>> {
    v.map_values(|g: Vec<PropertyValue>| g@)
}

/// The default values of `clip`'s properties, group by group.
fn copy_clip_properties(clip: &Clip) -> (v: Vec<Vec<PropertyValue>>)
    ensures
        values_view(v@) == default_values(*clip),
{
    let mut groups: Vec<Vec<PropertyValue>> = Vec::new();
    let mut g: usize = 0;
    while g < clip.property_groups.len()
        invariant
            g <= clip.property_groups@.len(),
            values_view(groups@) == default_values(*clip).take(g as int),
        decreases clip.property_groups@.len() - g,
    {
        let defaults = &clip.property_groups[g].defaults;
        let mut values: Vec<PropertyValue> = Vec::new();
        let mut p: usize = 0;
        while p < defaults.len()
            invariant
                p <= defaults@.len(),
                values@ == defaults@.map_values(|d: PropertyDefault| d.value).take(p as int),
            decreases defaults@.len() - p,
        {
            values.push(defaults[p].value);
            p = p + 1;
            proof {
                assert(values@ =~= defaults@.map_values(|d: PropertyDefault| d.value).take(p as int));
            }
        }
        proof {
            assert(values@ =~= defaults@.map_values(|d: PropertyDefault| d.value));
        }
        let ghost before = groups@;
        groups.push(values);
        g = g + 1;
        proof {
            assert(values_view(groups@) =~= values_view(before).push(values@));
            assert(values_view(groups@) =~= default_values(*clip).take(g as int));
        }
    }
    proof {
        assert(default_values(*clip).take(g as int) =~= default_values(*clip));
    }
    groups
}

/// The one item of a clip's context menu that depends on what the clip plays: a generator clip
/// is copied (the next clip to be inserted is of its schema and takes its property values), and
/// an animation clip asks for a new target clip of its schema.
pub fn clip_menu_action(editor_state: &mut EditorState, clip: &Clip)
    ensures
        match clip.source {
            ClipSource::Generator => {
                &&& final(editor_state).insert_clip_properties matches Some(v) && values_view(v@)
                    == default_values(*clip)
                &&& *final(editor_state) == (EditorState {
                    insert_clip_schema: Some(clip.schema),
                    insert_clip_properties: final(editor_state).insert_clip_properties,
                    ..*old(editor_state)
                })
            },
            ClipSource::Animation(_) => *final(editor_state) == (EditorState {
                retarget_clip_request: Some((clip.schema, clip.id)),
                ..*old(editor_state)
            }),
        },
{
    match clip.source {
        ClipSource::Generator => {
            editor_state.insert_clip_properties = Some(copy_clip_properties(clip));
            editor_state.insert_clip_schema = Some(clip.schema);
        },
        ClipSource::Animation(_) => {
            editor_state.retarget_clip_request = Some((clip.schema, clip.id));
        },
    }
}

/// Default `p` of group `g` of a new clip once the copied values `props` are applied: the
/// copied value where there is one, its own value elsewhere.
pub open spec fn copied_default(d: PropertyDefault, props: Seq<Seq<PropertyValue>>, g: int, p: int) -> PropertyDefault {
    if g < props.len() && p < props[g].len() {
        PropertyDefault { value: props[g][p], ..d }
    } else {
        d
    }
}

/// Applying copied values gives every property the copied value wherever the copied values
/// have one, in every group: for a clip `before` and the clip `after` that
/// `apply_copied_properties` makes of it with `props` (as its contract relates them), property
/// `p` of group `g` holds `props[g][p]` when the copied values have that group and property,
/// and keeps its own value otherwise; the override flags stay. So copying a clip (its default
/// values, as `clip_menu_action` records them) onto a clip of the same shape gives that clip
/// the copied clip's values.
pub proof fn law_copied_values_applied(before: Clip, after: Clip, props: Seq<Seq<PropertyValue>>)
    requires
        after.property_groups@.len() == before.property_groups@.len(),
        forall|g: int|
            0 <= g < before.property_groups@.len() ==> #[trigger] after.property_groups@[g].defaults@.len()
                == before.property_groups@[g].defaults@.len(),
        forall|g: int, p: int|
            0 <= g < before.property_groups@.len() && 0 <= p < before.property_groups@[g].defaults@.len()
                ==> #[trigger] after.property_groups@[g].defaults@[p] == copied_default(
                before.property_groups@[g].defaults@[p],
                props,
                g,
                p,
            ),
    ensures
        forall|g: int, p: int|
            0 <= g < before.property_groups@.len() && 0 <= p < before.property_groups@[g].defaults@.len() ==> {
                &&& (#[trigger] after.property_groups@[g].defaults@[p]).is_override
                    == before.property_groups@[g].defaults@[p].is_override
                &&& after.property_groups@[g].defaults@[p].value == if g < props.len() && p < props[g].len() {
                    props[g][p]
                } else {
                    before.property_groups@[g].defaults@[p].value
                }
            },
        forall|src: Clip|
            props == default_values(src) && #[trigger] default_values(src).len() == before.property_groups@.len()
                && (forall|g: int|
                0 <= g < props.len() ==> #[trigger] props[g].len() == before.property_groups@[g].defaults@.len())
                ==> default_values(after) == default_values(src),
{
    assert forall|src: Clip|
        props == default_values(src) && #[trigger] default_values(src).len() == before.property_groups@.len()
            && (forall|g: int|
            0 <= g < props.len() ==> #[trigger] props[g].len() == before.property_groups@[g].defaults@.len())
            implies default_values(after) == default_values(src) by {
        let a = default_values(after);
        assert forall|g: int| 0 <= g < a.len() implies #[trigger] a[g] == props[g] by {
            assert(props[g].len() == before.property_groups@[g].defaults@.len());
            assert forall|p: int| 0 <= p < a[g].len() implies a[g][p] == props[g][p] by {
                assert(after.property_groups@[g].defaults@[p] == copied_default(
                    before.property_groups@[g].defaults@[p],
                    props,
                    g,
                    p,
                ));
            }
            assert(a[g] =~= props[g]);
        }
        assert(a =~= props);
    }
}

/// Gives a new clip the copied property values `props`, group by group and property by
/// property, as far as both go.
pub fn apply_copied_properties(clip: &mut Clip, props: &Vec<Vec<PropertyValue>>)
    ensures
        *final(clip) == (Clip { property_groups: final(clip).property_groups, ..*old(clip) }),
        final(clip).property_groups@.len() == old(clip).property_groups@.len(),
        forall|g: int|
            0 <= g < old(clip).property_groups@.len() ==> #[trigger] final(clip).property_groups@[g].defaults@.len()
                == old(clip).property_groups@[g].defaults@.len(),
        forall|g: int, p: int|
            0 <= g < old(clip).property_groups@.len() && 0 <= p < old(clip).property_groups@[g].defaults@.len()
                ==> #[trigger] final(clip).property_groups@[g].defaults@[p] == copied_default(
                old(clip).property_groups@[g].defaults@[p],
                values_view(props@),
                g,
                p,
            ),
{
    let ghost o = *clip;
    let ghost pv = values_view(props@);
    let n = clip.property_groups.len();
    let mut g: usize = 0;
    while g < n
        invariant
            n == o.property_groups@.len(),
            pv == values_view(props@),
            g <= n,
            *clip == (Clip { property_groups: clip.property_groups, ..o }),
            clip.property_groups@.len() == n,
            forall|gg: int| g <= gg < n ==> #[trigger] clip.property_groups@[gg] == o.property_groups@[gg],
            forall|gg: int|
                0 <= gg < g ==> #[trigger] clip.property_groups@[gg].defaults@.len()
                    == o.property_groups@[gg].defaults@.len(),
            forall|gg: int, p: int|
                0 <= gg < g && 0 <= p < o.property_groups@[gg].defaults@.len()
                    ==> #[trigger] clip.property_groups@[gg].defaults@[p] == copied_default(
                    o.property_groups@[gg].defaults@[p],
                    pv,
                    gg,
                    p,
                ),
        decreases n - g,
    {
        let m = clip.property_groups[g].defaults.len();
        let mut defaults: Vec<PropertyDefault> = Vec::new();
        let mut p: usize = 0;
        while p < m
            invariant
                m == o.property_groups@[g as int].defaults@.len(),
                g < n,
                n == o.property_groups@.len(),
                pv == values_view(props@),
                clip.property_groups@.len() == n,
                clip.property_groups@[g as int] == o.property_groups@[g as int],
                p <= m,
                defaults@.len() == p,
                forall|q: int|
                    0 <= q < p ==> #[trigger] defaults@[q] == copied_default(
                        o.property_groups@[g as int].defaults@[q],
                        pv,
                        g as int,
                        q,
                    ),
            decreases m - p,
        {
            let d = clip.property_groups[g].defaults[p];
            let value = if g < props.len() && p < props[g].len() {
                props[g][p]
            } else {
                d.value
            };
            defaults.push(PropertyDefault { value, ..d });
            p = p + 1;
        }
        clip.property_groups.set(g, PropertyGroup { defaults });
        g = g + 1;
    }
}

/// The editor is about to insert a clip: one of a generator schema, or an animation.
pub open spec fn inserting(e: EditorState) -> bool {
    e.insert_clip_schema is Some || e.insert_animation is Some
}

/// Where a click on the timeline puts the clip about to be inserted: on track `track_row` at
/// frame `start_frame` (the row and frame under the mouse, rounded down), when the editor is
/// inserting a clip, the track exists, the frame is not negative, and one frame is free there.
pub fn new_clip_slot(timeline: &Timeline, editor_state: &EditorState, track_row: i64, start_frame: i64) -> (slot: Option<
    (usize, u32),
>)
    requires
        timeline_fits(*timeline),
        start_frame < u32::MAX,
    ensures
        slot == if inserting(*editor_state) && 0 <= track_row < timeline.tracks@.len() && 0 <= start_frame
            && fits_on_track(timeline.tracks@[track_row as int].clips@, start_frame as int, 1, false) {
            Some((track_row as usize, start_frame as u32))
        } else {
            None
        },
{
    if editor_state.insert_clip_schema.is_none() && editor_state.insert_animation.is_none() {
        return None;
    }
    if track_row < 0 || track_row as u128 >= timeline.tracks.len() as u128 {
        return None;
    }
    if start_frame < 0 {
        return None;
    }
    let track_index = track_row as usize;
    let start = start_frame as u32;
    proof {
        assert(track_fits(timeline.tracks@[track_index as int].clips@));
    }
    if !can_fit_clip(&timeline.tracks[track_index], start, 1, false) {
        return None;
    }
    Some((track_index, start))
}

/// One free frame at `pos` leaves the track clear there with room for a one-frame clip.
proof fn lemma_free_frame(clips: Seq<Clip>, pos: int)
    requires
        fits_on_track(clips, pos, 1, false),
    ensures
        clear_at(clips, pos),
        room_after(clips, pos, 1),
{
    assert forall|i: int| 0 <= i < clips.len() && crate::timeline::start_of(clips, i) < pos implies crate::timeline::end_of(clips, i) <= pos by {
        assert(!crate::timeline_interactions::blocks(clips, i, pos, 1));
    }
    assert forall|i: int| 0 <= i < clips.len() && pos <= crate::timeline::start_of(clips, i) implies pos + 1 <= crate::timeline::start_of(clips, i) by {
        assert(!crate::timeline_interactions::blocks(clips, i, pos, 1));
    }
}

/// The animation about to be inserted: the animated clip's id and schema index, the group and
/// property index of the animated property, its value, and the frame it was picked at.
pub type PendingAnimation = (u32, usize, usize, usize, PropertyValue, u32);

/// `c` is the generator clip `g` as the editor puts it down: selected, with the copied property
/// values `props` applied when there are any.
pub open spec fn generator_clip_as_placed(c: Clip, g: Clip, props: Option<Vec<Vec<PropertyValue>>>) -> bool {
    &&& c == (Clip { property_groups: c.property_groups, is_selected: true, ..g })
    &&& c.property_groups@.len() == g.property_groups@.len()
    &&& forall|i: int|
        0 <= i < g.property_groups@.len() ==> #[trigger] c.property_groups@[i].defaults@.len()
            == g.property_groups@[i].defaults@.len()
    &&& forall|i: int, p: int|
        0 <= i < g.property_groups@.len() && 0 <= p < g.property_groups@[i].defaults@.len()
            ==> #[trigger] c.property_groups@[i].defaults@[p] == match props {
            Some(v) => copied_default(g.property_groups@[i].defaults@[p], values_view(v@), i, p),
            None => g.property_groups@[i].defaults@[p],
        }
}

/// The frame, relative to a clip that starts at `start`, of a keyframe picked at `frame`, both
/// read as 32-bit signed numbers.
pub open spec fn relative_frame(frame: u32, start: u32) -> int {
    (frame as i32) - (start as i32)
}

/// `p` is the property that the pending animation `anim` adds to an animation clip that starts
/// at frame `clip_start`: the picked property, starting from its picked value at the picked
/// frame, with no segments yet.
pub open spec fn new_animated_property(p: AnimatedProperty, anim: PendingAnimation, clip_start: u32) -> bool {
    &&& p.group_index == anim.2
    &&& p.property_index == anim.3
    &&& !p.is_collapsed
    &&& p.target matches AnimatedPropertyTarget::Joined(f)
    &&& f.local_offset_frames == relative_frame(anim.5, clip_start)
    &&& f.start_value == anim.4
    &&& f.segments@.len() == 0
}

/// `c` is the new animation clip, with id `id`, of the pending animation `anim` put down at
/// frame `start`: it animates the picked property of the picked clip, for one frame.
pub open spec fn animation_clip_as_placed(c: Clip, id: u32, anim: PendingAnimation, start: u32) -> bool {
    &&& c.id == id
    &&& c.name@ == "Animation"@
    &&& c.schema == anim.1
    &&& c.duration_frames == 1
    &&& c.property_groups@.len() == 0
    &&& c.is_selected
    &&& c.source matches ClipSource::Animation(a)
    &&& a.target_clip == anim.0
    &&& a.properties@.len() == 1
    &&& new_animated_property(a.properties@[0], anim, start)
}

/// The property that the pending animation `anim` adds to a clip that starts at `clip_start`.
fn new_property(anim: PendingAnimation, clip_start: u32) -> (p: AnimatedProperty)
    requires
        i32::MIN <= relative_frame(anim.5, clip_start) <= i32::MAX,
    ensures
        new_animated_property(p, anim, clip_start),
{
    let (_, _, group_index, property_index, value, frame) = anim;
    AnimatedProperty {
        group_index,
        property_index,
        target: AnimatedPropertyTarget::Joined(
            AnimatedPropertyField {
                local_offset_frames: frame as i32 - clip_start as i32,
                start_value: value,
                segments: Vec::new(),
            },
        ),
        is_collapsed: false,
    }
}

/// `c` is the clip that the editor's pending insertion puts down at `start`: the generator clip
/// handed in when a schema is pending, else a clip of the pending animation.
pub open spec fn new_clip_as_placed(c: Clip, e: EditorState, generator: Option<Clip>, start: u32) -> bool {
    if e.insert_clip_schema is Some {
        generator_clip_as_placed(c, generator->0, e.insert_clip_properties)
    } else {
        animation_clip_as_placed(c, e.next_clip_id, e.insert_animation.unwrap(), start)
    }
}

/// Makes the clip of the pending insertion (see `new_clip_as_placed`) and clears the pending
/// insertion.
fn take_new_clip(editor_state: &mut EditorState, generator: Option<Clip>, start: u32) -> (c: Clip)
    requires
        inserting(*old(editor_state)),
        old(editor_state).insert_clip_schema is Some ==> generator is Some,
        old(editor_state).insert_clip_schema is None ==> i32::MIN <= relative_frame(
            old(editor_state).insert_animation.unwrap().5,
            start,
        ) <= i32::MAX,
    ensures
        new_clip_as_placed(c, *old(editor_state), generator, start),
        *final(editor_state) == if old(editor_state).insert_clip_schema is Some {
            EditorState { insert_clip_schema: None, insert_clip_properties: None, ..*old(editor_state) }
        } else {
            EditorState { insert_animation: None, ..*old(editor_state) }
        },
{
    if editor_state.insert_clip_schema.is_some() {
        let mut clip = generator.unwrap();
        let ghost g = clip;
        match &editor_state.insert_clip_properties {
            Some(props) => apply_copied_properties(&mut clip, props),
            None => {},
        }
        clip.is_selected = true;
        editor_state.insert_clip_schema = None;
        editor_state.insert_clip_properties = None;
        clip
    } else {
        let anim = editor_state.insert_animation.unwrap();
        let target = anim.0;
        let schema = anim.1;
        let name = "Animation".to_string();
        proof {
            vstd::string::to_string_from_display_ensures_for_str("Animation", name);
        }
        let property = new_property(anim, start);
        let clip = Clip {
            id: editor_state.next_clip_id,
            name,
            schema,
            source: ClipSource::Animation(AnimationClip { target_clip: target, properties: vec![property] }),
            offset_frames: 0,
            duration_frames: 1,
            property_groups: Vec::new(),
            is_selected: true,
        };
        editor_state.insert_animation = None;
        clip
    }
}

/// The placements of each track.
pub open spec fn layout(t: Timeline) -> Seq<Seq<Placed>> {
    t.tracks@.map_values(|tr: Track| placements(tr.clips@))
}

/// The layout of `t` once `c` is put on track `k` at frame `start`, after every clip that starts
/// before it.
pub open spec fn with_new_clip(t: Timeline, k: int, start: int, c: Clip) -> Seq<Seq<Placed>> {
    layout(t).update(
        k,
        placements(t.tracks@[k].clips@).insert(insert_index(t.tracks@[k].clips@, start), (start, placed(c))),
    )
}

/// `f` is `s` without the empty tracks before its first and after its last track with clips
/// (`s` holds at least one clip).
pub open spec fn trimmed_from(f: Seq<Seq<Placed>>, s: Seq<Seq<Placed>>) -> bool {
    exists|a: int, b: int|
        #![trigger s.subrange(a, b)]
        {
            &&& 0 <= a < b <= s.len()
            &&& forall|i: int| 0 <= i < a ==> #[trigger] s[i].len() == 0
            &&& s[a].len() != 0
            &&& s[b - 1].len() != 0
            &&& forall|i: int| b <= i < s.len() ==> #[trigger] s[i].len() == 0
            &&& f == s.subrange(a, b)
        }
}

/// The end of a track once a clip is put at position `k` of its placements.
proof fn lemma_end_after_insert(old_clips: Seq<Clip>, new_clips: Seq<Clip>, k: int, pos: int, c: Clip)
    requires
        0 <= k <= old_clips.len(),
        placements(new_clips) == placements(old_clips).insert(k, (pos, placed(c))),
    ensures
        end_at(new_clips, new_clips.len() as int) == if k == old_clips.len() {
            pos + c.duration_frames
        } else {
            end_at(old_clips, old_clips.len() as int)
        },
{
    let n = old_clips.len() as int;
    assert(placements(new_clips).len() == n + 1);
    assert(new_clips.len() == n + 1);
    let last = placements(new_clips)[n];
    assert(end_at(new_clips, n + 1) == last.0 + last.1.duration_frames);
    if k < n {
        assert(last == placements(old_clips)[n - 1]);
    }
}

/// Puts down the clip of the editor's pending insertion (see `new_clip_as_placed`; `generator`
/// is the instance of the pending schema, made for the editor's next clip id with one frame of
/// duration) on track `track_index` at frame `start_frame`, a slot that `new_clip_slot` gave.
/// The clip is selected, the pending insertion is done, the clip becomes the one just inserted
/// and takes up the next clip id, empty tracks at both ends are trimmed, and a drag starts.
pub fn place_new_clip(
    timeline: &mut Timeline,
    editor_state: &mut EditorState,
    track_index: usize,
    start_frame: u32,
    generator: Option<Clip>,
)
    requires
        timeline_fits(*old(timeline)),
        frames_fit_i32(*old(timeline)),
        track_index < old(timeline).tracks@.len(),
        start_frame < i32::MAX,
        fits_on_track(old(timeline).tracks@[track_index as int].clips@, start_frame as int, 1, false),
        inserting(*old(editor_state)),
        old(editor_state).next_clip_id < u32::MAX,
        old(editor_state).insert_clip_schema is Some ==> (generator matches Some(g) && g.duration_frames == 1),
        old(editor_state).insert_clip_schema is None ==> i32::MIN <= relative_frame(
            old(editor_state).insert_animation.unwrap().5,
            start_frame,
        ) <= i32::MAX,
    ensures
        exists|c: Clip|
            #[trigger] new_clip_as_placed(c, *old(editor_state), generator, start_frame) && trimmed_from(
                layout(*final(timeline)),
                with_new_clip(*old(timeline), track_index as int, start_frame as int, c),
            ),
        timeline_fits(*final(timeline)),
        frames_fit_i32(*final(timeline)),
        ({
            let e = *old(editor_state);
            interaction_started(
                EditorState {
                    insert_clip_schema: None,
                    insert_clip_properties: if e.insert_clip_schema is Some {
                        None
                    } else {
                        e.insert_clip_properties
                    },
                    insert_animation: if e.insert_clip_schema is Some {
                        e.insert_animation
                    } else {
                        None
                    },
                    just_inserted_clip: Some(e.next_clip_id),
                    next_clip_id: (e.next_clip_id + 1) as u32,
                    ..e
                },
                *final(editor_state),
                *final(timeline),
            )
        }),
{
    let ghost o = *timeline;
    let ghost clips = o.tracks@[track_index as int].clips@;
    let clip = take_new_clip(editor_state, generator, start_frame);
    let ghost c = clip;
    proof {
        lemma_free_frame(clips, start_frame as int);
        assert(track_fits(clips));
        lemma_clip_end_bound(clips);
        assert(c.duration_frames == 1);
    }
    let res = insert_clip(&mut timeline.tracks[track_index], clip, start_frame);
    let ghost mid = *timeline;
    proof {
        assert(res.is_ok());
        let k = insert_index(clips, start_frame as int);
        crate::placement::lemma_insert_index_placements(clips, start_frame as int, clips.len() as int);
        crate::placement::lemma_count_starting_before_bounds(placements(clips), start_frame as int, clips.len() as int);
        lemma_end_after_insert(clips, mid.tracks@[track_index as int].clips@, k, start_frame as int, c);
        assert(layout(mid) =~= with_new_clip(o, track_index as int, start_frame as int, c));
        assert forall|kk: int| 0 <= kk < mid.tracks@.len() implies #[trigger] track_fits(mid.tracks@[kk].clips@)
            && end_at(mid.tracks@[kk].clips@, mid.tracks@[kk].clips@.len() as int) <= i32::MAX by {
            if kk != track_index {
                assert(mid.tracks@[kk] == o.tracks@[kk]);
                assert(track_fits(o.tracks@[kk].clips@));
            }
        }
        assert(placements(mid.tracks@[track_index as int].clips@).len() == clips.len() + 1);
        assert(mid.tracks@[track_index as int].clips@.len() != 0);
    }
    editor_state.just_inserted_clip = Some(editor_state.next_clip_id);
    editor_state.next_clip_id = editor_state.next_clip_id + 1;
    trim_empty_tracks(timeline);
    let ghost f = *timeline;
    proof {
        let s = mid.tracks@;
        assert(!(forall|i: int| 0 <= i < s.len() ==> #[trigger] s[i].clips@.len() == 0)) by {
            assert(s[track_index as int].clips@.len() != 0);
        }
        let (a, b) = choose|a: int, b: int|
            {
                &&& 0 <= a < b <= s.len()
                &&& forall|i: int| 0 <= i < a ==> #[trigger] s[i].clips@.len() == 0
                &&& s[a].clips@.len() != 0
                &&& s[b - 1].clips@.len() != 0
                &&& forall|i: int| b <= i < s.len() ==> #[trigger] s[i].clips@.len() == 0
                &&& f.tracks@ == s.subrange(a, b)
            };
        let l = layout(mid);
        assert(layout(f) =~= l.subrange(a, b));
        assert forall|i: int| 0 <= i < l.len() implies (#[trigger] l[i].len() == 0) == (s[i].clips@.len() == 0) by {
            assert(l[i] == placements(s[i].clips@));
        }
        assert(trimmed_from(layout(f), l));
        assert(new_clip_as_placed(c, *old(editor_state), generator, start_frame));
        assert forall|kk: int| 0 <= kk < f.tracks@.len() implies #[trigger] track_fits(f.tracks@[kk].clips@) by {
            assert(f.tracks@[kk] == s[a + kk]);
            assert(track_fits(s[a + kk].clips@));
        }
        assert forall|kk: int| 0 <= kk < f.tracks@.len() implies end_at(
            #[trigger] f.tracks@[kk].clips@,
            f.tracks@[kk].clips@.len() as int,
        ) <= i32::MAX by {
            assert(f.tracks@[kk] == s[a + kk]);
            assert(track_fits(s[a + kk].clips@));
        }
    }
    start_interaction(timeline, editor_state);
}

/// A track ends at or after its start.
proof fn lemma_clip_end_bound(clips: Seq<Clip>)
    ensures
        0 <= end_at(clips, clips.len() as int),
{
    crate::timeline::lemma_end_at_monotonic(clips, 0, clips.len() as int);
}

/// `clip` can become the target that the editor is asking for: a generator clip of the
/// requested schema.
pub open spec fn can_target(e: EditorState, clip: Clip) -> bool {
    e.retarget_clip_request matches Some((schema, _)) && clip.source is Generator && clip.schema == schema
}

/// Whether `clip` can become the target that the editor is asking for (see `can_target`).
pub fn can_set_target(editor_state: &EditorState, clip: &Clip) -> (b: bool)
    ensures
        b == can_target(*editor_state, *clip),
{
    match editor_state.retarget_clip_request {
        Some((schema, _)) => match clip.source {
            ClipSource::Generator => clip.schema == schema,
            _ => false,
        },
        None => false,
    }
}

/// An animation clip animating `target` instead; other clips stay as they are.
pub open spec fn retargeted(c: Clip, target: u32) -> Clip {
    match c.source {
        ClipSource::Animation(a) => Clip {
            source: ClipSource::Animation(crate::timeline::AnimationClip { target_clip: target, ..a }),
            ..c
        },
        _ => c,
    }
}

/// Gives an animation clip the target that was picked for it: when the editor's retarget
/// request is for `clip` and a target was picked, an animation clip animates that target from
/// now on and the request is done; otherwise nothing changes.
pub fn try_receive_target(editor_state: &mut EditorState, clip: &mut Clip)
    ensures
        ({
            let e = *old(editor_state);
            let c = *old(clip);
            if e.retarget_clip_request matches Some((_, source)) && source == c.id && e.retarget_clip_response is Some
                && c.source is Animation {
                &&& *final(editor_state) == (EditorState {
                    retarget_clip_request: None,
                    retarget_clip_response: None,
                    ..e
                })
                &&& *final(clip) == retargeted(c, e.retarget_clip_response->0)
            } else {
                &&& *final(editor_state) == e
                &&& *final(clip) == c
            }
        }),
{
    let request_source = match editor_state.retarget_clip_request {
        Some((_, r)) => r,
        None => {
            return;
        },
    };
    if request_source != clip.id {
        return;
    }
    let new_target = match editor_state.retarget_clip_response {
        Some(t) => t,
        None => {
            return;
        },
    };
    match &mut clip.source {
        ClipSource::Animation(a) => {
            a.target_clip = new_target;
        },
        ClipSource::Generator => {
            return;
        },
    }
    editor_state.retarget_clip_request = None;
    editor_state.retarget_clip_response = None;
}

/// `after` is `before` once a drag starts on `t`: nothing has moved yet, and the snapping points
/// are those of `t`, in increasing order.
pub open spec fn interaction_started(before: EditorState, after: EditorState, t: Timeline) -> bool {
    &&& after == (EditorState { drag_offset: 0, track_offset: 0, snapping_points: after.snapping_points, ..before })
    &&& strictly_sorted(after.snapping_points@)
    &&& forall|d: i32| after.snapping_points@.contains(d) <==> is_snap_offset(t, d as int)
}

/// Starts a drag on the timeline (see `interaction_started`).
pub fn start_interaction(timeline: &Timeline, editor_state: &mut EditorState)
    requires
        timeline_fits(*timeline),
        frames_fit_i32(*timeline),
    ensures
        interaction_started(*old(editor_state), *final(editor_state), *timeline),
{
    editor_state.drag_offset = 0;
    editor_state.track_offset = 0;
    editor_state.snapping_points = get_snapping_points(timeline);
}

/// A press on a clip or on one of its resize handles: when `clicked`, the clip's selection is
/// toggled (see `select_clip`) and a drag starts; otherwise nothing happens.
pub fn try_start_interaction(
    timeline: &mut Timeline,
    track_index: usize,
    clip_index: usize,
    editor_state: &mut EditorState,
    clicked: bool,
    exclusive: bool,
)
    requires
        timeline_fits(*old(timeline)),
        frames_fit_i32(*old(timeline)),
        track_index < old(timeline).tracks@.len(),
        clip_index < old(timeline).tracks@[track_index as int].clips@.len(),
    ensures
        timeline_fits(*final(timeline)),
        frames_fit_i32(*final(timeline)),
        clicked ==> select_result(*old(timeline), *final(timeline), track_index as int, clip_index as int, exclusive)
            && interaction_started(*old(editor_state), *final(editor_state), *final(timeline)),
        !clicked ==> *final(timeline) == *old(timeline) && *final(editor_state) == *old(editor_state),
{
    if clicked {
        select_clip(timeline, track_index, clip_index, exclusive);
        proof {
            lemma_select_keeps_extent(*old(timeline), *timeline, track_index as int, clip_index as int, exclusive);
        }
        start_interaction(timeline, editor_state);
    }
}

/// `after` is the animation clip `before` once the pending animation `anim` adds its property,
/// the clip starting at frame `start`.
pub open spec fn property_added(before: Clip, after: Clip, anim: PendingAnimation, start: u32) -> bool {
    &&& after == (Clip { source: after.source, ..before })
    &&& before.source matches ClipSource::Animation(a)
    &&& after.source matches ClipSource::Animation(b)
    &&& b.target_clip == a.target_clip
    &&& b.properties@.len() == a.properties@.len() + 1
    &&& b.properties@.take(a.properties@.len() as int) == a.properties@
    &&& new_animated_property(b.properties@.last(), anim, start)
}

/// The pending animation `anim` adds its property to `clip`, an animation clip starting at frame
/// `start` that animates the clip the property belongs to.
fn add_pending_property(clip: &mut Clip, anim: PendingAnimation, start: u32)
    requires
        old(clip).source is Animation,
        old(clip).source->0.target_clip == anim.0,
        i32::MIN <= relative_frame(anim.5, start) <= i32::MAX,
    ensures
        property_added(*old(clip), *final(clip), anim, start),
{
    match &mut clip.source {
        ClipSource::Animation(a) => {
            let ghost before = a.properties@;
            a.properties.push(new_property(anim, start));
            proof {
                assert(a.properties@.take(before.len() as int) =~= before);
            }
        },
        ClipSource::Generator => {},
    }
}

/// Frame at which clip `index` of the track starts.
fn clip_start_frame(track: &Track, index: usize) -> (start: u32)
    requires
        track_fits(track.clips@),
        index < track.clips@.len(),
    ensures
        start == start_of(track.clips@, index as int),
{
    let mut last_clip_end: u32 = 0;
    let mut i: usize = 0;
    while i < index
        invariant
            i <= index < track.clips@.len(),
            track_fits(track.clips@),
            last_clip_end == end_at(track.clips@, i as int),
        decreases index - i,
    {
        proof {
            crate::timeline::lemma_clip_in_track(track.clips@, i as int);
        }
        last_clip_end = last_clip_end + track.clips[i].offset_frames + track.clips[i].duration_frames;
        i = i + 1;
    }
    proof {
        crate::timeline::lemma_clip_in_track(track.clips@, index as int);
    }
    last_clip_end + track.clips[index].offset_frames
}

/// `f` is `o` once the pending animation `anim` adds its property to clip `c` of track `k`, an
/// animation clip (see `property_added`); nothing else changes.
pub open spec fn animation_added(o: Timeline, f: Timeline, k: int, c: int, anim: PendingAnimation) -> bool {
    &&& f.tracks@.len() == o.tracks@.len()
    &&& forall|kk: int| 0 <= kk < o.tracks@.len() && kk != k ==> #[trigger] f.tracks@[kk] == o.tracks@[kk]
    &&& f.tracks@[k].clips@.len() == o.tracks@[k].clips@.len()
    &&& forall|i: int|
        0 <= i < o.tracks@[k].clips@.len() && i != c ==> #[trigger] f.tracks@[k].clips@[i] == o.tracks@[k].clips@[i]
    &&& property_added(
        o.tracks@[k].clips@[c],
        f.tracks@[k].clips@[c],
        anim,
        start_of(o.tracks@[k].clips@, c) as u32,
    )
}

/// What a click on clip `clip_index` of track `track_index` does, apart from drawing. First,
/// unless the clip is being renamed, a clip that can become the requested target is given as
/// the response. Then: a pending request to pick a clip that has no answer yet gets this clip;
/// else, when an animation is pending and this is an animation clip, the animation's property
/// is added to it if it animates the right clip; else the clip's selection is toggled (see
/// `select_clip`) and a drag starts.
pub fn click_clip(
    timeline: &mut Timeline,
    editor_state: &mut EditorState,
    track_index: usize,
    clip_index: usize,
    exclusive: bool,
)
    requires
        timeline_fits(*old(timeline)),
        frames_fit_i32(*old(timeline)),
        track_index < old(timeline).tracks@.len(),
        clip_index < old(timeline).tracks@[track_index as int].clips@.len(),
        ({
            let clips = old(timeline).tracks@[track_index as int].clips@;
            let clip = clips[clip_index as int];
            let e = *old(editor_state);
            (!(e.select_clip_request is Some && e.select_clip_response is None) && e.insert_animation is Some
                && clip.source is Animation && clip.source->0.target_clip == e.insert_animation.unwrap().0)
                ==> i32::MIN <= relative_frame(
                e.insert_animation.unwrap().5,
                start_of(clips, clip_index as int) as u32,
            ) <= i32::MAX
        }),
    ensures
        timeline_fits(*final(timeline)),
        frames_fit_i32(*final(timeline)),
        ({
            let o = *old(timeline);
            let e = *old(editor_state);
            let clip = o.tracks@[track_index as int].clips@[clip_index as int];
            let e1 = if e.renaming_clip != Some(clip.id) && can_target(e, clip) {
                EditorState { retarget_clip_response: Some(clip.id), ..e }
            } else {
                e
            };
            if e1.select_clip_request is Some && e1.select_clip_response is None {
                &&& *final(editor_state) == (EditorState { select_clip_response: Some(clip.id), ..e1 })
                &&& *final(timeline) == o
            } else if e1.insert_animation is Some && clip.source is Animation {
                if clip.source->0.target_clip == e1.insert_animation.unwrap().0 {
                    &&& *final(editor_state) == (EditorState { insert_animation: None, ..e1 })
                    &&& animation_added(
                        o,
                        *final(timeline),
                        track_index as int,
                        clip_index as int,
                        e1.insert_animation.unwrap(),
                    )
                } else {
                    &&& *final(editor_state) == e1
                    &&& *final(timeline) == o
                }
            } else {
                &&& select_result(o, *final(timeline), track_index as int, clip_index as int, exclusive)
                &&& interaction_started(e1, *final(editor_state), *final(timeline))
            }
        }),
{
    let ghost o = *timeline;
    let clip_id = timeline.tracks[track_index].clips[clip_index].id;
    let renaming = match editor_state.renaming_clip {
        Some(r) => r == clip_id,
        None => false,
    };
    if !renaming && can_set_target(editor_state, &timeline.tracks[track_index].clips[clip_index]) {
        editor_state.retarget_clip_response = Some(clip_id);
    }
    if editor_state.select_clip_request.is_some() && editor_state.select_clip_response.is_none() {
        editor_state.select_clip_response = Some(clip_id);
        return;
    }
    let is_animation = match timeline.tracks[track_index].clips[clip_index].source {
        ClipSource::Animation(_) => true,
        ClipSource::Generator => false,
    };
    if editor_state.insert_animation.is_some() && is_animation {
        let anim = editor_state.insert_animation.unwrap();
        let target = match &timeline.tracks[track_index].clips[clip_index].source {
            ClipSource::Animation(a) => a.target_clip,
            ClipSource::Generator => anim.0,
        };
        if target != anim.0 {
            return;
        }
        proof {
            assert(track_fits(o.tracks@[track_index as int].clips@));
        }
        let start = clip_start_frame(&timeline.tracks[track_index], clip_index);
        add_pending_property(&mut timeline.tracks[track_index].clips[clip_index], anim, start);
        editor_state.insert_animation = None;
        proof {
            let f = *timeline;
            let k = track_index as int;
            let c = clip_index as int;
            assert forall|kk: int| 0 <= kk < f.tracks@.len() implies #[trigger] track_fits(f.tracks@[kk].clips@)
                && end_at(f.tracks@[kk].clips@, f.tracks@[kk].clips@.len() as int) <= i32::MAX by {
                let a = f.tracks@[kk].clips@;
                let b = o.tracks@[kk].clips@;
                assert(track_fits(b));
                assert(end_at(b, b.len() as int) <= i32::MAX);
                assert forall|j: int| 0 <= j < a.len() implies #[trigger] a[j].offset_frames + a[j].duration_frames
                    == b[j].offset_frames + b[j].duration_frames by {
                    if kk == k && j == c {
                        assert(a[j] == f.tracks@[k].clips@[c]);
                    }
                }
                crate::timeline::lemma_end_at_same_extent(a, b, a.len() as int);
            }
            assert forall|kk: int| 0 <= kk < f.tracks@.len() implies end_at(
                #[trigger] f.tracks@[kk].clips@,
                f.tracks@[kk].clips@.len() as int,
            ) <= i32::MAX by {
                assert(track_fits(f.tracks@[kk].clips@));
            }
            assert(f.tracks@[k].clips@ == o.tracks@[k].clips@.update(c, f.tracks@[k].clips@[c]));
            assert(animation_added(o, f, k, c, anim));
        }
        return;
    }
    try_start_interaction(timeline, track_index, clip_index, editor_state, true, exclusive);
}

/// Sets a keyframe at `position_frames` to `value` on every curve of an animated property (see
/// `keyframe_set`): its one joined curve, or each of its separate curves.
pub fn insert_target_keyframe(target: &mut AnimatedPropertyTarget, position_frames: i32, value: PropertyValue) -> (inserted: bool)
    requires
        match *old(target) {
            AnimatedPropertyTarget::Joined(f) => keyframe_insertable(f, position_frames as int),
            AnimatedPropertyTarget::Separate(fs) => forall|i: int|
                0 <= i < fs@.len() ==> keyframe_insertable(#[trigger] fs@[i], position_frames as int),
        },
    ensures
        inserted,
        match (*old(target), *final(target)) {
            (AnimatedPropertyTarget::Joined(a), AnimatedPropertyTarget::Joined(b)) => keyframe_set(
                a,
                b,
                position_frames as int,
                value,
            ),
            (AnimatedPropertyTarget::Separate(a), AnimatedPropertyTarget::Separate(b)) => {
                &&& b@.len() == a@.len()
                &&& forall|i: int| 0 <= i < a@.len() ==> keyframe_set(#[trigger] a@[i], b@[i], position_frames as int, value)
            },
            _ => false,
        },
{
    match target {
        AnimatedPropertyTarget::Joined(field) => insert_keyframe(field, position_frames, value),
        AnimatedPropertyTarget::Separate(fields) => {
            let ghost before = fields@;
            let n = fields.len();
            let mut i: usize = 0;
            while i < n
                invariant
                    n == before.len(),
                    fields@.len() == n,
                    i <= n,
                    forall|k: int| 0 <= k < n ==> keyframe_insertable(#[trigger] before[k], position_frames as int),
                    forall|k: int| i <= k < n ==> #[trigger] fields@[k] == before[k],
                    forall|k: int| 0 <= k < i ==> keyframe_set(#[trigger] before[k], fields@[k], position_frames as int, value),
                decreases n - i,
            {
                insert_keyframe(&mut fields[i], position_frames, value);
                i = i + 1;
            }
            true
        },
    }
}

/// Carries out what the motion editor's properties of an animation clip report: a property whose
/// delete button was pressed is removed.
pub fn apply_property_interaction(animation: &mut AnimationClip, interaction: PropertyInteraction)
    requires
        interaction matches PropertyInteraction::Delete(i) ==> i < old(animation).properties@.len(),
    ensures
        final(animation).target_clip == old(animation).target_clip,
        final(animation).properties@ == match interaction {
            PropertyInteraction::Idle => old(animation).properties@,
            PropertyInteraction::Delete(i) => old(animation).properties@.remove(i as int),
        },
{
    match interaction {
        PropertyInteraction::Idle => {},
        PropertyInteraction::Delete(index) => {
            animation.properties.remove(index);
        },
    }
}

/// Carries out what the keyframe controls of a curve report: a keyframe whose delete button was
/// pressed is removed (see `delete_keyframe`).
pub fn apply_keyframe_interaction(field: &mut AnimatedPropertyField, interaction: KeyframeInteraction)
    requires
        field_fits(*old(field)),
        interaction matches KeyframeInteraction::Deleted(Some(i)) ==> i < old(field).segments@.len(),
    ensures
        match interaction {
            KeyframeInteraction::Idle => *final(field) == *old(field),
            KeyframeInteraction::Deleted(index) => keyframe_deleted(*old(field), *final(field), index),
        },
{
    match interaction {
        KeyframeInteraction::Idle => {},
        KeyframeInteraction::Deleted(index) => delete_keyframe(field, index),
    }
}

/// The frames that the motion editor shows for its clips, given as (start, duration) pairs: from
/// the earliest start to the latest end (`u32::MAX` and 0 when there are no clips).
pub fn visible_frame_range(clips: &[(u32, u32)]) -> (r: (u32, u32))
    requires
        forall|i: int| 0 <= i < clips@.len() ==> #[trigger] clips@[i].0 + clips@[i].1 <= u32::MAX,
    ensures
        forall|i: int| 0 <= i < clips@.len() ==> r.0 <= #[trigger] clips@[i].0 && clips@[i].0 + clips@[i].1 <= r.1,
        clips@.len() == 0 ==> r == (u32::MAX, 0u32),
        clips@.len() > 0 ==> exists|i: int| 0 <= i < clips@.len() && #[trigger] clips@[i].0 == r.0,
        clips@.len() > 0 ==> exists|i: int| 0 <= i < clips@.len() && #[trigger] clips@[i].0 + clips@[i].1 == r.1,
{
    let mut min_frames: u32 = u32::MAX;
    let mut max_frames: u32 = 0;
    let mut i: usize = 0;
    while i < clips.len()
        invariant
            i <= clips@.len(),
            forall|k: int| 0 <= k < clips@.len() ==> #[trigger] clips@[k].0 + clips@[k].1 <= u32::MAX,
            forall|k: int| 0 <= k < i ==> min_frames <= #[trigger] clips@[k].0 && clips@[k].0 + clips@[k].1 <= max_frames,
            i == 0 ==> min_frames == u32::MAX && max_frames == 0,
            i > 0 ==> exists|k: int| 0 <= k < i && #[trigger] clips@[k].0 == min_frames,
            i > 0 ==> exists|k: int| 0 <= k < i && #[trigger] clips@[k].0 + clips@[k].1 == max_frames,
        decreases clips@.len() - i,
    {
        let (start, duration) = clips[i];
        if start < min_frames {
            min_frames = start;
        }
        if start + duration > max_frames {
            max_frames = start + duration;
        }
        proof {
            if i > 0 {
                if start >= min_frames {
                    let k = choose|k: int| 0 <= k < i && #[trigger] clips@[k].0 == min_frames;
                }
            }
        }
        i = i + 1;
    }
    (min_frames, max_frames)
}

/// The frames of the keyframes of the first `n` curves of a clip starting at `clip_start`,
/// curve by curve: each curve's start, then the end of each of its segments.
pub open spec fn keyframe_positions(fields: Seq<AnimatedPropertyField>, clip_start: int, n: int) -> Seq<int>
    decreases n,
{
    if n <= 0 {
        Seq::empty()
    } else {
        let f = fields[n - 1];
        keyframe_positions(fields, clip_start, n - 1) + Seq::new(
            (f.segments@.len() + 1) as nat,
            |i: int| clip_start + key_time(f.local_offset_frames as int, f.segments@, i),
        )
    }
}

/// The keyframes' frames all fit in an `i32`.
pub open spec fn keyframes_fit(fields: Seq<AnimatedPropertyField>, clip_start: int) -> bool {
    &&& forall|k: int, i: int|
        0 <= k < fields.len() && 0 <= i < fields[k].segments@.len() ==> #[trigger] fields[k].segments@[i].duration_frames
            <= i32::MAX
    &&& forall|k: int, i: int|
        0 <= k < fields.len() && 0 <= i <= fields[k].segments@.len() ==> i32::MIN <= key_time(
            fields[k].local_offset_frames as int,
            fields[k].segments@,
            i,
        ) <= i32::MAX && i32::MIN <= clip_start + #[trigger] key_time(
            fields[k].local_offset_frames as int,
            fields[k].segments@,
            i,
        ) <= i32::MAX
}

/// The edit that a drag of the timeline's clips asks for, in one frame.
#[derive(Debug, Clone, Copy, PartialEq, Eq, Structural)]
pub enum DragStep {
    /// No clip is being dragged.
    Nothing,
    /// Move the selected clips to the frame offset, then to the track offset, from where the
    /// drag began (`move_selected_clips`, then `change_selected_clip_tracks`).
    Move(i32, i32),
    /// Resize the selected clips' starts to the frame offset, keeping the minimum duration
    /// (`resize_selected_clips_left`).
    ResizeLeft(i32, u32),
    /// Resize the selected clips' ends to the frame offset, keeping the minimum duration
    /// (`resize_selected_clips_right`).
    ResizeRight(i32, u32),
}

/// Decides what a frame of a clip drag does: with the mouse `delta_frames` frames and
/// `track_delta` tracks from where the drag began, the frame offset is snapped to the nearest
/// snapping point within `snap_threshold` frames (see `snap_offset`); a move then moves the
/// selected clips by it and across `track_delta` tracks, and a resize moves the start or the
/// end of the selected clips by it, keeping `min_duration` frames.
pub fn drag_step(
    interaction: ClipInteraction,
    delta_frames: i32,
    track_delta: i32,
    snapping_points: &[i32],
    snap_threshold: i32,
    min_duration: u32,
) -> (step: DragStep)
    requires
        interaction != ClipInteraction::Idle ==> forall|i: int|
            0 <= i < snapping_points@.len() ==> i32::MIN < #[trigger] snapping_points@[i] - delta_frames <= i32::MAX,
    ensures
        match interaction {
            ClipInteraction::Idle => step == DragStep::Nothing,
            ClipInteraction::Moving => step matches DragStep::Move(f, t) && t == track_delta && is_snapped(
                f,
                delta_frames,
                snapping_points@,
                snap_threshold,
            ),
            ClipInteraction::ResizingLeft => step matches DragStep::ResizeLeft(f, m) && m == min_duration
                && is_snapped(f, delta_frames, snapping_points@, snap_threshold),
            ClipInteraction::ResizingRight => step matches DragStep::ResizeRight(f, m) && m == min_duration
                && is_snapped(f, delta_frames, snapping_points@, snap_threshold),
        },
{
    match interaction {
        ClipInteraction::Idle => DragStep::Nothing,
        _ => {
            let snapped = snap_offset(delta_frames, snapping_points, snap_threshold);
            match interaction {
                ClipInteraction::Moving => DragStep::Move(snapped, track_delta),
                ClipInteraction::ResizingLeft => DragStep::ResizeLeft(snapped, min_duration),
                _ => DragStep::ResizeRight(snapped, min_duration),
            }
        },
    }
}

/// What the user did in a property's row of the property editor, in one frame.
pub enum PropertyEvent {
    /// Clicked the override box.
    OverrideBox,
    /// Clicked the keyframe button.
    KeyframeButton,
    /// Changed the value in its field to the one given.
    Edit(PropertyValue),
    /// A frame of a clip-reference field, the widget with the given id: whether it was clicked
    /// with the left button, and whether with the right.
    ReferenceField(u32, bool, bool),
}

/// The value a property's row shows: that of the playing clip when it plays, else the default.
pub open spec fn shown_value(prop: PropertyDefault, active: Option<ClipPropertyValue>) -> PropertyValue {
    match active {
        Some(a) => a.value,
        None => prop.value,
    }
}

/// An animation clip drives the property.
pub open spec fn is_targeted(active: Option<ClipPropertyValue>) -> bool {
    active matches Some(a) && a.targeted_by is Some
}

/// The default after its value was changed to `v`: a property that an animation drives now
/// overrides the animation.
pub open spec fn edited(prop: PropertyDefault, active: Option<ClipPropertyValue>, v: PropertyValue) -> PropertyDefault {
    PropertyDefault { value: v, is_override: if is_targeted(active) { true } else { prop.is_override } }
}

/// Applies what the user did in the row of property `index` of group `group` of the clip with
/// id `clip` (of schema `schema`), whose default is `prop` and whose value in the playing clip,
/// if it plays, is `active`. The override box, for a property an animation drives, switches
/// the override and takes the playing value as the default. The keyframe button asks for a
/// keyframe of the shown value on the driving animation clip (returned: that clip's id, `clip`,
/// `group`, `index`, the value), or, when no animation drives the property, starts inserting
/// an animation at the current frame. An edit sets the value. A clip-reference field toggles
/// the request to pick a clip with a left click, takes the picked clip once one is picked,
/// and clears the reference with a right click.
pub fn property_row_event(
    prop: &mut PropertyDefault,
    active: Option<ClipPropertyValue>,
    clip: u32,
    schema: usize,
    group: usize,
    index: usize,
    event: PropertyEvent,
    editor_state: &mut EditorState,
) -> (keyframe: Option<(u32, u32, usize, usize, PropertyValue)>)
    requires
        event matches PropertyEvent::ReferenceField(_, _, _) ==> shown_value(*old(prop), active) is ClipReference,
    ensures
        ({
            let o = *old(prop);
            let cur = shown_value(o, active);
            let e = *old(editor_state);
            match event {
                PropertyEvent::OverrideBox => {
                    &&& keyframe is None
                    &&& *final(editor_state) == e
                    &&& *final(prop) == if is_targeted(active) {
                        PropertyDefault { value: active->Some_0.value, is_override: !active->Some_0.is_overridden }
                    } else {
                        o
                    }
                },
                PropertyEvent::KeyframeButton => {
                    &&& *final(prop) == o
                    &&& if is_targeted(active) {
                        &&& keyframe == Some((active->Some_0.targeted_by->Some_0, clip, group, index, cur))
                        &&& *final(editor_state) == e
                    } else {
                        &&& keyframe is None
                        &&& *final(editor_state) == (EditorState {
                            insert_animation: Some((clip, schema, group, index, cur, e.current_frame)),
                            ..e
                        })
                    }
                },
                PropertyEvent::Edit(v) => {
                    &&& keyframe is None
                    &&& *final(editor_state) == e
                    &&& *final(prop) == edited(o, active, v)
                },
                PropertyEvent::ReferenceField(id, left, right) => {
                    let req = if left {
                        if e.select_clip_request == Some(id) {
                            None
                        } else {
                            Some(id)
                        }
                    } else {
                        e.select_clip_request
                    };
                    let resp = if left {
                        None
                    } else {
                        e.select_clip_response
                    };
                    &&& keyframe is None
                    &&& if req == Some(id) && resp is Some {
                        &&& *final(prop) == edited(o, active, PropertyValue::ClipReference(resp))
                        &&& *final(editor_state) == (EditorState {
                            select_clip_request: None,
                            select_clip_response: None,
                            ..e
                        })
                    } else if req != Some(id) && right {
                        &&& *final(prop) == edited(o, active, PropertyValue::ClipReference(None))
                        &&& *final(editor_state) == (EditorState {
                            select_clip_request: None,
                            select_clip_response: None,
                            ..e
                        })
                    } else {
                        &&& *final(prop) == o
                        &&& *final(editor_state) == (EditorState {
                            select_clip_request: req,
                            select_clip_response: resp,
                            ..e
                        })
                    }
                },
            }
        }),
{
    let current_val = match active {
        Some(a) => a.value,
        None => prop.value,
    };
    let targeted_by = match active {
        Some(a) => a.targeted_by,
        None => None,
    };
    let is_overridden = match active {
        Some(a) => a.is_overridden,
        None => false,
    };
    match event {
        PropertyEvent::OverrideBox => {
            if targeted_by.is_some() {
                // The box shows the override switched on; a click switches it off, and back.
                prop.is_override = !is_overridden;
                if let Some(a) = active {
                    prop.value = a.value;
                }
            }
            None
        },
        PropertyEvent::KeyframeButton => {
            if let Some(target) = targeted_by {
                Some((target, clip, group, index, current_val))
            } else {
                let frame = editor_state.current_frame;
                editor_state.insert_animation = Some((clip, schema, group, index, current_val, frame));
                None
            }
        },
        PropertyEvent::Edit(v) => {
            prop.value = v;
            if targeted_by.is_some() {
                prop.is_override = true;
            }
            None
        },
        PropertyEvent::ReferenceField(id, left, right) => {
            if left {
                if editor_state.select_clip_request == Some(id) {
                    editor_state.select_clip_request = None;
                    editor_state.select_clip_response = None;
                } else {
                    editor_state.select_clip_request = Some(id);
                    editor_state.select_clip_response = None;
                }
            }
            let mut changed: Option<PropertyValue> = None;
            if editor_state.select_clip_request == Some(id) {
                if let Some(response) = editor_state.select_clip_response {
                    changed = Some(PropertyValue::ClipReference(Some(response)));
                    editor_state.select_clip_request = None;
                    editor_state.select_clip_response = None;
                }
            } else if right {
                changed = Some(PropertyValue::ClipReference(None));
                editor_state.select_clip_request = None;
                editor_state.select_clip_response = None;
            }
            if let Some(v) = changed {
                prop.value = v;
                if targeted_by.is_some() {
                    prop.is_override = true;
                }
            }
            None
        },
    }
}

/// The keyframe to seek to from frame `current` among the frames `keyframes`: the latest one
/// before it, or, `forward`, the earliest one after it; `None` when there is none on that side.
pub fn seek_target(keyframes: &Vec<i32>, current: i32, forward: bool) -> (t: Option<i32>)
    ensures
        match t {
            Some(f) => {
                &&& keyframes@.contains(f)
                &&& forward ==> f > current && forall|i: int|
                    0 <= i < keyframes@.len() && #[trigger] keyframes@[i] > current ==> f <= keyframes@[i]
                &&& !forward ==> f < current && forall|i: int|
                    0 <= i < keyframes@.len() && #[trigger] keyframes@[i] < current ==> keyframes@[i] <= f
            },
            None => forall|i: int|
                0 <= i < keyframes@.len() ==> if forward {
                    #[trigger] keyframes@[i] <= current
                } else {
                    keyframes@[i] >= current
                },
        },
{
    let mut best: Option<i32> = None;
    let mut k: usize = 0;
    while k < keyframes.len()
        invariant
            k <= keyframes@.len(),
            match best {
                Some(f) => {
                    &&& keyframes@.take(k as int).contains(f)
                    &&& forward ==> f > current && forall|i: int|
                        0 <= i < k && #[trigger] keyframes@[i] > current ==> f <= keyframes@[i]
                    &&& !forward ==> f < current && forall|i: int|
                        0 <= i < k && #[trigger] keyframes@[i] < current ==> keyframes@[i] <= f
                },
                None => forall|i: int|
                    0 <= i < k ==> if forward {
                        #[trigger] keyframes@[i] <= current
                    } else {
                        keyframes@[i] >= current
                    },
            },
        decreases keyframes@.len() - k,
    {
        let frame = keyframes[k];
        let ghost before = best;
        if forward && frame > current {
            best = match best {
                Some(f) => Some(if frame < f { frame } else { f }),
                None => Some(frame),
            };
        } else if !forward && frame < current {
            best = match best {
                Some(f) => Some(if frame > f { frame } else { f }),
                None => Some(frame),
            };
        }
        proof {
            assert(keyframes@.take(k + 1) =~= keyframes@.take(k as int).push(frame));
            if let Some(f) = best {
                if before == Some(f) {
                    let j = choose|j: int| 0 <= j < k && keyframes@.take(k as int)[j] == f;
                    assert(keyframes@.take(k + 1)[j] == f);
                } else {
                    assert(keyframes@.take(k + 1)[k as int] == f);
                }
            }
        }
        k = k + 1;
    }
    proof {
        assert(keyframes@.take(k as int) =~= keyframes@);
    }
    best
}

/// The seek that the editor's keyframe seek buttons ask for: to the keyframe of `fields` (in a
/// clip that starts at `clip_start_frame`) just before the current frame, or, `forward`, just
/// after it; `None` when there is no keyframe on that side.
pub fn seek_to_keyframe(
    fields: &[AnimatedPropertyField],
    clip_start_frame: i32,
    editor_state: &EditorState,
    forward: bool,
) -> (cmd: Option<AudioCommand>)
    requires
        keyframes_fit(fields@, clip_start_frame as int),
    ensures
        ({
            let frames = keyframe_positions(fields@, clip_start_frame as int, fields@.len() as int);
            let current = editor_state.spec_current_frame() as i32;
            match cmd {
                Some(AudioCommand::Seek(f)) => exists|i: int|
                    0 <= i < frames.len() && #[trigger] frames[i] as i32 as u32 == f && (if forward {
                        frames[i] > current && forall|j: int|
                            0 <= j < frames.len() && #[trigger] frames[j] > current ==> frames[i] <= frames[j]
                    } else {
                        frames[i] < current && forall|j: int|
                            0 <= j < frames.len() && #[trigger] frames[j] < current ==> frames[j] <= frames[i]
                    }),
                Some(_) => false,
                None => forall|i: int|
                    0 <= i < frames.len() ==> if forward {
                        #[trigger] frames[i] <= current
                    } else {
                        frames[i] >= current
                    },
            }
        }),
{
    let seeker_pos = editor_state.current_frame() as i32;
    let positions = get_all_keyframe_positions(fields, clip_start_frame);
    let ghost frames = keyframe_positions(fields@, clip_start_frame as int, fields@.len() as int);
    proof {
        assert(positions@.len() == frames.len());
        assert forall|i: int| 0 <= i < frames.len() implies #[trigger] frames[i] == positions@[i] as int by {
            assert(positions@.map_values(|x: i32| x as int)[i] == positions@[i] as int);
        }
    }
    match seek_target(&positions, seeker_pos, forward) {
        Some(frame) => {
            proof {
                let i = choose|i: int| 0 <= i < positions@.len() && positions@[i] == frame;
                assert(frames[i] == frame as int);
                assert(frames[i] as i32 as u32 == frame as u32);
            }
            Some(editor_state.seek_to_frame(frame as u32))
        },
        None => None,
    }
}

/// The frames of every keyframe of `fields` in a clip that starts at `clip_start_frame` (see
/// `keyframe_positions`).
pub fn get_all_keyframe_positions(fields: &[AnimatedPropertyField], clip_start_frame: i32) -> (frames: Vec<i32>)
    requires
        keyframes_fit(fields@, clip_start_frame as int),
    ensures
        frames@.map_values(|x: i32| x as int) == keyframe_positions(fields@, clip_start_frame as int, fields@.len() as int),
{
    let ghost fs = fields@;
    let mut frames: Vec<i32> = Vec::new();
    let mut k: usize = 0;
    while k < fields.len()
        invariant
            k <= fs.len(),
            fs == fields@,
            keyframes_fit(fs, clip_start_frame as int),
            frames@.map_values(|x: i32| x as int) == keyframe_positions(fs, clip_start_frame as int, k as int),
        decreases fs.len() - k,
    {
        let field = &fields[k];
        let ghost segs = field.segments@;
        let ghost off = field.local_offset_frames as int;
        let ghost base = frames@.map_values(|x: i32| x as int);
        proof {
            assert(key_time(off, segs, 0) == off);
            assert(i32::MIN <= clip_start_frame + key_time(off, segs, 0) <= i32::MAX);
        }
        frames.push(clip_start_frame + field.local_offset_frames);
        let mut last_end: i32 = field.local_offset_frames;
        let mut i: usize = 0;
        proof {
            assert(frames@.map_values(|x: i32| x as int) =~= base + Seq::new(
                (i + 1) as nat,
                |j: int| clip_start_frame + key_time(off, segs, j),
            ));
        }
        while i < field.segments.len()
            invariant
                i <= segs.len(),
                segs == field.segments@,
                off == field.local_offset_frames,
                field == fs[k as int],
                k < fs.len(),
                keyframes_fit(fs, clip_start_frame as int),
                last_end == key_time(off, segs, i as int),
                frames@.map_values(|x: i32| x as int) == base + Seq::new(
                    (i + 1) as nat,
                    |j: int| clip_start_frame + key_time(off, segs, j),
                ),
            decreases segs.len() - i,
        {
            proof {
                assert(fs[k as int].segments@[i as int].duration_frames <= i32::MAX);
                assert(key_time(off, segs, i + 1) == key_time(off, segs, i as int) + segs[i as int].duration_frames);
                assert(i32::MIN <= key_time(off, segs, i + 1) <= i32::MAX);
                assert(i32::MIN <= clip_start_frame + key_time(off, segs, i + 1) <= i32::MAX);
            }
            let ghost before = frames@;
            let segment_end = last_end + field.segments[i].duration_frames as i32;
            last_end = segment_end;
            frames.push(clip_start_frame + segment_end);
            proof {
                assert(frames@.map_values(|x: i32| x as int) =~= before.map_values(|x: i32| x as int).push(
                    clip_start_frame + key_time(off, segs, i + 1),
                ));
                assert(base + Seq::new((i + 2) as nat, |j: int| clip_start_frame + key_time(off, segs, j)) =~= (base
                    + Seq::new((i + 1) as nat, |j: int| clip_start_frame + key_time(off, segs, j))).push(
                    clip_start_frame + key_time(off, segs, i + 1),
                ));
            }
            i = i + 1;
        }
        k = k + 1;
    }
    frames
}

} // verus!
