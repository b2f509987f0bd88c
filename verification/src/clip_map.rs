//! The clips that play at a frame: at most one per track, each with the frame's time inside the
//! clip and its property values, found again by clip id.
use vstd::prelude::*;
use crate::timeline::{end_at, end_of, start_of, track_fits, timeline_fits, Clip, PropertyDefault, PropertyGroup, PropertyValue, Timeline};

verus! {

/// A property value of a playing clip: its value, whether the clip overrides it, and the
/// animation clip that drives it, if any.
#[derive(Clone, Copy, PartialEq, Eq, Debug)]
pub struct ClipPropertyValue {
    pub value: PropertyValue,
    pub is_overridden: bool,
    pub targeted_by: Option<u32>,
}

/// A clip that plays at the current frame.
pub struct ActiveClip {
    pub name: String,
    /// Id of the clip.
    pub reference: u32,
    pub track_index: usize,
    pub clip_index: usize,
    /// Frames since the clip started.
    pub local_time: u32,
    pub properties: Vec<Vec<ClipPropertyValue>>,
}

/// The property values of a clip as they start out when it plays: its defaults, overridden as
/// the clip says when `keep_overrides`, driven by nothing.
pub open spec fn starting_values(c: Clip, keep_overrides: bool) -> Seq<Seq<ClipPropertyValue>> {
    c.property_groups@.map_values(
        |g: PropertyGroup|
            g.defaults@.map_values(
                |d: PropertyDefault|
                    ClipPropertyValue {
                        value: d.value,
                        is_overridden: keep_overrides && d.is_override,
                        targeted_by: None,
                    },
            ),
    )
}

pub open spec fn properties_view(p: Seq<Vec<ClipPropertyValue>>) -> Seq<Seq<ClipPropertyValue>> {
    p.map_values(|g: Vec<ClipPropertyValue>| g@)
}

/// Clip `i` of a track plays at `frame`.
pub open spec fn plays_at(clips: Seq<Clip>, i: int, frame: int) -> bool {
    start_of(clips, i) <= frame < end_of(clips, i)
}

/// The first of the first `n` clips of a track that plays at `frame`, if any.
pub open spec fn first_playing(clips: Seq<Clip>, frame: int, n: int) -> Option<int>
    decreases n,
{
    if n <= 0 {
        None
    } else {
        match first_playing(clips, frame, n - 1) {
            Some(i) => Some(i),
            None => if plays_at(clips, n - 1, frame) {
                Some(n - 1)
            } else {
                None
            },
        }
    }
}

/// For the first `k` tracks in order, the track and clip index of the clip that plays at
/// `frame` on it, for the tracks where one does.
pub open spec fn playing_clips(t: Timeline, frame: int, k: int) -> Seq<(int, int)>
    decreases k,
{
    if k <= 0 {
        Seq::empty()
    } else {
        let clips = t.tracks@[k - 1].clips@;
        playing_clips(t, frame, k - 1) + match first_playing(clips, frame, clips.len() as int) {
            Some(i) => seq![(k - 1, i)],
            None => Seq::empty(),
        }
    }
}

/// `a` describes clip `i` of track `k` playing at `frame`.
pub open spec fn describes(a: ActiveClip, t: Timeline, k: int, i: int, frame: int, keep_overrides: bool) -> bool {
    let clips = t.tracks@[k].clips@;
    let c = clips[i];
    &&& a.reference == c.id
    &&& a.track_index == k
    &&& a.clip_index == i
    &&& a.local_time == frame - start_of(clips, i)
    &&& properties_view(a.properties@) == starting_values(c, keep_overrides)
}

/// Position of the last clip among `clips` with id `reference`.
pub open spec fn last_with_reference(clips: Seq<ActiveClip>, reference: u32) -> Option<int>
    decreases clips.len(),
{
    if clips.len() == 0 {
        None
    } else if clips.last().reference == reference {
        Some(clips.len() - 1)
    } else {
        last_with_reference(clips.drop_last(), reference)
    }
}

/// The property values of clip `c` as it starts playing.
fn starting_properties(c: &Clip, keep_overrides: bool) -> (p: Vec<Vec<ClipPropertyValue>>)
    ensures
        properties_view(p@) == starting_values(*c, keep_overrides),
{
    let mut groups: Vec<Vec<ClipPropertyValue>> = Vec::new();
    let mut g: usize = 0;
    while g < c.property_groups.len()
        invariant
            g <= c.property_groups@.len(),
            properties_view(groups@) == starting_values(*c, keep_overrides).take(g as int),
        decreases c.property_groups@.len() - g,
    {
        let group = &c.property_groups[g];
        let mut values: Vec<ClipPropertyValue> = Vec::new();
        let mut d: usize = 0;
        while d < group.defaults.len()
            invariant
                d <= group.defaults@.len(),
                group == c.property_groups@[g as int],
                values@ == starting_values(*c, keep_overrides)[g as int].take(d as int),
                g < c.property_groups@.len(),
            decreases group.defaults@.len() - d,
        {
            let default = group.defaults[d];
            values.push(
                ClipPropertyValue {
                    value: default.value,
                    is_overridden: keep_overrides && default.is_override,
                    targeted_by: None,
                },
            );
            proof {
                assert(values@ =~= starting_values(*c, keep_overrides)[g as int].take(d + 1));
            }
            d = d + 1;
        }
        proof {
            assert(values@ =~= starting_values(*c, keep_overrides)[g as int]);
        }
        let ghost before = groups@;
        groups.push(values);
        proof {
            assert(properties_view(groups@) =~= properties_view(before).push(values@));
            assert(starting_values(*c, keep_overrides).take(g + 1) =~= starting_values(*c, keep_overrides).take(
                g as int,
            ).push(starting_values(*c, keep_overrides)[g as int]));
        }
        g = g + 1;
    }
    proof {
        assert(properties_view(groups@) =~= starting_values(*c, keep_overrides));
    }
    groups
}

/// The editor's view of which clips play at a frame.
pub struct EditorClipMap {
    pub active_clips: Vec<ActiveClip>,
}

impl EditorClipMap {
    /// For each track in order, the first clip that plays at `current_frame`, if any.
    pub fn from_timeline(timeline: &Timeline, current_frame: u32) -> (m: Self)
        requires
            timeline_fits(*timeline),
        ensures
            m.active_clips@.len() == playing_clips(*timeline, current_frame as int, timeline.tracks@.len() as int).len(),
            forall|j: int|
                0 <= j < m.active_clips@.len() ==> {
                    let (k, i) = #[trigger] playing_clips(*timeline, current_frame as int, timeline.tracks@.len() as int)[j];
                    &&& m.active_clips@[j].name@ == timeline.tracks@[k].clips@[i].name@
                    &&& describes(m.active_clips@[j], *timeline, k, i, current_frame as int, true)
                },
    {
        let ghost t = *timeline;
        let ghost frame = current_frame as int;
        let mut active: Vec<ActiveClip> = Vec::new();
        let mut k: usize = 0;
        while k < timeline.tracks.len()
            invariant
                k <= t.tracks@.len(),
                *timeline == t,
                frame == current_frame,
                timeline_fits(t),
                active@.len() == playing_clips(t, frame, k as int).len(),
                forall|j: int|
                    0 <= j < active@.len() ==> {
                        let (kk, i) = #[trigger] playing_clips(t, frame, k as int)[j];
                        &&& 0 <= kk < k
                        &&& 0 <= i < t.tracks@[kk].clips@.len()
                        &&& active@[j].name@ == t.tracks@[kk].clips@[i].name@
                        &&& describes(active@[j], t, kk, i, frame, true)
                    },
            decreases t.tracks@.len() - k,
        {
            let ghost clips = t.tracks@[k as int].clips@;
            proof {
                assert(track_fits(clips));
            }
            let track = &timeline.tracks[k];
            let mut last_end: u32 = 0;
            let mut i: usize = 0;
            let mut found: Option<ActiveClip> = None;
            while i < track.clips.len()
                invariant_except_break
                    found is None,
                    last_end == end_at(clips, i as int),
                    first_playing(clips, frame, i as int) is None,
                invariant
                    i <= clips.len(),
                    track.clips@ == clips,
                    clips == t.tracks@[k as int].clips@,
                    k < t.tracks@.len(),
                    track_fits(clips),
                    frame == current_frame,
                ensures
                    found is None ==> first_playing(clips, frame, clips.len() as int) is None,
                    found matches Some(a) ==> first_playing(clips, frame, clips.len() as int) matches Some(ii)
                        && a.name@ == clips[ii].name@ && describes(a, t, k as int, ii, frame, true) && 0 <= ii < clips.len(),
                decreases clips.len() - i,
            {
                proof {
                    crate::timeline::lemma_clip_in_track(clips, i as int);
                }
                let clip = &track.clips[i];
                let start = last_end + clip.offset_frames;
                last_end = start + clip.duration_frames;
                if current_frame >= start && current_frame < last_end {
                    let properties = starting_properties(clip, true);
                    found = Some(
                        ActiveClip {
                            name: clip.name.clone(),
                            reference: clip.id,
                            track_index: k,
                            clip_index: i,
                            local_time: current_frame - start,
                            properties,
                        },
                    );
                    proof {
                        assert(first_playing(clips, frame, i + 1) == Some(i as int));
                        lemma_first_playing_stays(clips, frame, i + 1, clips.len() as int);
                    }
                    break;
                }
                i = i + 1;
            }
            let ghost before = active@;
            match found {
                Some(a) => {
                    active.push(a);
                },
                None => {},
            }
            proof {
                assert forall|j: int| 0 <= j < active@.len() implies {
                    let (kk, ii) = #[trigger] playing_clips(t, frame, k + 1)[j];
                    &&& 0 <= kk < k + 1
                    &&& 0 <= ii < t.tracks@[kk].clips@.len()
                    &&& active@[j].name@ == t.tracks@[kk].clips@[ii].name@
                    &&& describes(active@[j], t, kk, ii, frame, true)
                } by {
                    if j < before.len() {
                        assert(playing_clips(t, frame, k + 1)[j] == playing_clips(t, frame, k as int)[j]);
                        assert(active@[j] == before[j]);
                    }
                }
            }
            k = k + 1;
        }
        EditorClipMap { active_clips: active }
    }

    /// Position of the playing clip with id `reference` (the last one, should two share it).
    pub fn get_clip_index(&self, reference: u32) -> (r: Option<usize>)
        ensures
            r matches Some(i) ==> last_with_reference(self.active_clips@, reference) == Some(i as int),
            r is None ==> last_with_reference(self.active_clips@, reference) is None,
    {
        let mut i = self.active_clips.len();
        proof {
            assert(self.active_clips@.take(i as int) =~= self.active_clips@);
        }
        while i > 0
            invariant
                i <= self.active_clips@.len(),
                last_with_reference(self.active_clips@.take(i as int), reference) == last_with_reference(
                    self.active_clips@,
                    reference,
                ),
            decreases i,
        {
            proof {
                assert(self.active_clips@.take(i as int).last() == self.active_clips@[i - 1]);
                assert(self.active_clips@.take(i as int).drop_last() =~= self.active_clips@.take(i - 1));
            }
            if self.active_clips[i - 1].reference == reference {
                return Some(i - 1);
            }
            i = i - 1;
        }
        proof {
            assert(self.active_clips@.take(0).len() == 0);
        }
        None
    }
}

proof fn lemma_first_playing_stays(clips: Seq<Clip>, frame: int, m: int, n: int)
    requires
        0 <= m <= n,
        first_playing(clips, frame, m) is Some,
    ensures
        first_playing(clips, frame, n) == first_playing(clips, frame, m),
    decreases n - m,
{
    if m < n {
        lemma_first_playing_stays(clips, frame, m, n - 1);
    }
}

/// The player's view of which clips play at a frame; the player's timeline has one clip per
/// track, and clip ids are track indices.
pub struct PlayerClipMap {
    pub active_clips: Vec<ActiveClip>,
    pub clip_indices: Vec<Option<usize>>,
}

impl PlayerClipMap {
    /// An empty map with room for `clip_count` clips.
    pub fn new(clip_count: usize) -> (m: Self)
        ensures
            m.active_clips@.len() == 0,
            m.clip_indices@.len() == 0,
    {
        let mut active_clips = Vec::new();
        active_clips.reserve(clip_count);
        let mut clip_indices = Vec::new();
        clip_indices.reserve(clip_count);
        PlayerClipMap { active_clips, clip_indices }
    }

    /// Refills the map for `current_frame`: for each track in order, its clip plays when the
    /// frame lies in the clip's span, and the track's entry of `clip_indices` holds the clip's
    /// position among the playing clips.
    pub fn update(&mut self, timeline: &Timeline, current_frame: u32)
        requires
            forall|k: int| 0 <= k < timeline.tracks@.len() ==> (#[trigger] timeline.tracks@[k]).clips@.len() >= 1,
            forall|k: int|
                0 <= k < timeline.tracks@.len() ==> #[trigger] timeline.tracks@[k].clips@[0].offset_frames
                    + timeline.tracks@[k].clips@[0].duration_frames <= u32::MAX,
        ensures
            final(self).clip_indices@.len() == timeline.tracks@.len(),
            forall|i: int, j: int|
                0 <= i < j < final(self).active_clips@.len() ==> (#[trigger] final(self).active_clips@[i]).track_index
                    < (#[trigger] final(self).active_clips@[j]).track_index,
            forall|j: int|
                0 <= j < final(self).active_clips@.len() ==> (#[trigger] final(self).active_clips@[j]).track_index
                    < timeline.tracks@.len() && final(self).clip_indices@[final(self).active_clips@[j].track_index as int]
                    == Some(j as usize),
            forall|k: int|
                0 <= k < timeline.tracks@.len() ==> {
                    let c = #[trigger] timeline.tracks@[k].clips@[0];
                    &&& (c.offset_frames <= current_frame < c.offset_frames + c.duration_frames) <==> final(self).clip_indices@[k] is Some
                    &&& final(self).clip_indices@[k] matches Some(j) ==> {
                        &&& j < final(self).active_clips@.len()
                        &&& final(self).active_clips@[j as int].name@.len() == 0
                        &&& final(self).active_clips@[j as int].reference == c.id
                        &&& final(self).active_clips@[j as int].track_index == k
                        &&& final(self).active_clips@[j as int].clip_index == 0
                        &&& final(self).active_clips@[j as int].local_time == current_frame - c.offset_frames
                        &&& properties_view(final(self).active_clips@[j as int].properties@) == starting_values(c, false)
                    }
                },
    {
        self.active_clips.clear();
        self.clip_indices.clear();
        let ghost frame = current_frame as int;
        let mut k: usize = 0;
        while k < timeline.tracks.len()
            invariant
                k <= timeline.tracks@.len(),
                frame == current_frame,
                forall|kk: int| 0 <= kk < timeline.tracks@.len() ==> (#[trigger] timeline.tracks@[kk]).clips@.len() >= 1,
                forall|kk: int|
                    0 <= kk < timeline.tracks@.len() ==> #[trigger] timeline.tracks@[kk].clips@[0].offset_frames
                        + timeline.tracks@[kk].clips@[0].duration_frames <= u32::MAX,
                self.clip_indices@.len() == k,
                forall|i: int, j: int|
                    0 <= i < j < self.active_clips@.len() ==> (#[trigger] self.active_clips@[i]).track_index
                        < (#[trigger] self.active_clips@[j]).track_index,
                forall|j: int|
                    0 <= j < self.active_clips@.len() ==> (#[trigger] self.active_clips@[j]).track_index < k
                        && self.clip_indices@[self.active_clips@[j].track_index as int] == Some(j as usize),
                forall|kk: int|
                    0 <= kk < k ==> {
                        let c = #[trigger] timeline.tracks@[kk].clips@[0];
                        &&& (c.offset_frames <= current_frame < c.offset_frames + c.duration_frames) <==> self.clip_indices@[kk] is Some
                        &&& self.clip_indices@[kk] matches Some(j) ==> {
                            &&& j < self.active_clips@.len()
                            &&& self.active_clips@[j as int].name@.len() == 0
                            &&& self.active_clips@[j as int].reference == c.id
                            &&& self.active_clips@[j as int].track_index == kk
                            &&& self.active_clips@[j as int].clip_index == 0
                            &&& self.active_clips@[j as int].local_time == current_frame - c.offset_frames
                            &&& properties_view(self.active_clips@[j as int].properties@) == starting_values(c, false)
                        }
                    },
            decreases timeline.tracks@.len() - k,
        {
            let clip = &timeline.tracks[k].clips[0];
            proof {
                assert(timeline.tracks@[k as int].clips@.len() >= 1);
            }
            let ghost before_indices = self.clip_indices@;
            let ghost before_active = self.active_clips@;
            if current_frame >= clip.offset_frames && current_frame < clip.offset_frames + clip.duration_frames {
                let properties = starting_properties(clip, false);
                let position = self.active_clips.len();
                self.clip_indices.push(Some(position));
                self.active_clips.push(
                    ActiveClip {
                        name: String::new(),
                        reference: clip.id,
                        track_index: k,
                        clip_index: 0,
                        local_time: current_frame - clip.offset_frames,
                        properties,
                    },
                );
            } else {
                self.clip_indices.push(None);
            }
            proof {
                assert forall|i: int, j: int|
                    0 <= i < j < self.active_clips@.len() implies (#[trigger] self.active_clips@[i]).track_index
                        < (#[trigger] self.active_clips@[j]).track_index by {
                    assert(self.active_clips@[i] == before_active[i]);
                    if j < before_active.len() {
                        assert(self.active_clips@[j] == before_active[j]);
                    }
                }
                assert forall|j: int| 0 <= j < self.active_clips@.len() implies (#[trigger] self.active_clips@[j]).track_index
                    < k + 1 && self.clip_indices@[self.active_clips@[j].track_index as int] == Some(j as usize) by {
                    if j < before_active.len() {
                        assert(self.active_clips@[j] == before_active[j]);
                        assert(self.clip_indices@[before_active[j].track_index as int] == before_indices[before_active[j].track_index as int]);
                    }
                }
                assert forall|kk: int| 0 <= kk < k + 1 implies {
                    let c = #[trigger] timeline.tracks@[kk].clips@[0];
                    &&& (c.offset_frames <= current_frame < c.offset_frames + c.duration_frames) <==> self.clip_indices@[kk] is Some
                    &&& self.clip_indices@[kk] matches Some(j) ==> {
                        &&& j < self.active_clips@.len()
                        &&& self.active_clips@[j as int].name@.len() == 0
                        &&& self.active_clips@[j as int].reference == c.id
                        &&& self.active_clips@[j as int].track_index == kk
                        &&& self.active_clips@[j as int].clip_index == 0
                        &&& self.active_clips@[j as int].local_time == current_frame - c.offset_frames
                        &&& properties_view(self.active_clips@[j as int].properties@) == starting_values(c, false)
                    }
                } by {
                    if kk < k {
                        assert(self.clip_indices@[kk] == before_indices[kk]);
                        if let Some(j) = before_indices[kk] {
                            assert(self.active_clips@[j as int] == before_active[j as int]);
                        }
                    }
                }
            }
            k = k + 1;
        }
    }

    /// Position among the playing clips of the clip with id `reference`, if it plays.
    pub fn get_clip_index(&self, reference: u32) -> (r: Option<usize>)
        requires
            reference < self.clip_indices@.len(),
        ensures
            r == self.clip_indices@[reference as int],
    {
        self.clip_indices[reference as usize]
    }
}

} // verus!
