//! Editing operations on the timeline: selecting, placing, moving and resizing clips, and
//! adding or removing keyframes.
use vstd::prelude::*;
use crate::editor_state::EditorState;
use crate::placement::{
    Placed, compatible, insert_all, lemma_insert_all_contains, lemma_insert_index_placements,
    lemma_moved_prefix_ordered, lemma_moved_prefix_origin, lemma_unselected_prefix_origin,
    moved_prefix, unselected_prefix, count_starting_before, lemma_insert_all_multiset, lemma_moved_prefix_empty_last,
    selected_empty_clips_last,
};
use crate::timeline::{
    property_shifted,
    AnimatedPropertyTarget, ClipSource, field_shift_fits, field_shifted, lemma_end_at_same_extent,
    source_shift_fits, source_shifted, target_shifted,
    AnimatedPropertyField, CurveInterpolation, CurveSegment, PropertyValue, field_fits,
    interpolations, key_time, keyframes, keys_before, lemma_key_time_merge,
    lemma_key_time_monotonic, lemma_key_time_shift, lemma_key_time_split,
    lemma_placements_injective,
    Clip, Timeline, Track, count_before, end_at, end_of, insert_index, lemma_clip_in_track,
    lemma_clips_ordered, lemma_end_at_monotonic, lemma_end_at_same_prefix, placed, placements,
    start_of, timeline_fits, track_fits, with_selected,
};

verus! {

/// Clears the selection flag of every clip.
pub fn deselect_all_clips(timeline: &mut Timeline)
    ensures
        final(timeline).tracks@.len() == old(timeline).tracks@.len(),
        forall|k: int|
            0 <= k < old(timeline).tracks@.len() ==> #[trigger] final(timeline).tracks@[k].clips@
                == old(timeline).tracks@[k].clips@.map_values(|c: Clip| with_selected(c, false)),
{
    let n = timeline.tracks.len();
    let mut k: usize = 0;
    while k < n
        invariant
            k <= n,
            n == old(timeline).tracks@.len(),
            timeline.tracks@.len() == n,
            forall|j: int|
                0 <= j < k ==> #[trigger] timeline.tracks@[j].clips@ == old(
                    timeline,
                ).tracks@[j].clips@.map_values(|c: Clip| with_selected(c, false)),
            forall|j: int| k <= j < n ==> #[trigger] timeline.tracks@[j] == old(timeline).tracks@[j],
        decreases n - k,
    {
        let m = timeline.tracks[k].clips.len();
        let mut c: usize = 0;
        while c < m
            invariant
                c <= m,
                k < n,
                n == old(timeline).tracks@.len(),
                timeline.tracks@.len() == n,
                m == old(timeline).tracks@[k as int].clips@.len(),
                timeline.tracks@[k as int].clips@.len() == m,
                forall|i: int|
                    0 <= i < c ==> #[trigger] timeline.tracks@[k as int].clips@[i] == with_selected(
                        old(timeline).tracks@[k as int].clips@[i],
                        false,
                    ),
                forall|i: int|
                    c <= i < m ==> #[trigger] timeline.tracks@[k as int].clips@[i] == old(
                        timeline,
                    ).tracks@[k as int].clips@[i],
                forall|j: int|
                    0 <= j < k ==> #[trigger] timeline.tracks@[j].clips@ == old(
                        timeline,
                    ).tracks@[j].clips@.map_values(|c: Clip| with_selected(c, false)),
                forall|j: int|
                    k < j < n ==> #[trigger] timeline.tracks@[j] == old(timeline).tracks@[j],
            decreases m - c,
        {
            timeline.tracks[k].clips[c].is_selected = false;
            c = c + 1;
        }
        assert(timeline.tracks@[k as int].clips@ =~= old(timeline).tracks@[k as int].clips@.map_values(
            |c: Clip| with_selected(c, false),
        ));
        k = k + 1;
    }
}

/// `f` is `o` once clip `clip_index` of track `track_index` is clicked (see `select_clip`).
pub open spec fn select_result(o: Timeline, f: Timeline, track_index: int, clip_index: int, exclusive: bool) -> bool {
    let was = o.tracks@[track_index].clips@[clip_index];
    if exclusive && was.is_selected {
        f == o
    } else {
        &&& f.tracks@.len() == o.tracks@.len()
        &&& forall|k: int|
            0 <= k < o.tracks@.len() ==> #[trigger] f.tracks@[k].clips@.len() == o.tracks@[k].clips@.len()
        &&& forall|k: int, c: int|
            0 <= k < o.tracks@.len() && 0 <= c < o.tracks@[k].clips@.len() ==> #[trigger] f.tracks@[k].clips@[c]
                == if k == track_index && c == clip_index {
                with_selected(was, !was.is_selected)
            } else if exclusive {
                with_selected(o.tracks@[k].clips@[c], false)
            } else {
                o.tracks@[k].clips@[c]
            }
    }
}

/// Selecting clips moves none of them: every track still ends where it did.
pub proof fn lemma_select_keeps_extent(o: Timeline, f: Timeline, track_index: int, clip_index: int, exclusive: bool)
    requires
        0 <= track_index < o.tracks@.len(),
        0 <= clip_index < o.tracks@[track_index].clips@.len(),
        select_result(o, f, track_index, clip_index, exclusive),
    ensures
        f.tracks@.len() == o.tracks@.len(),
        forall|k: int|
            0 <= k < o.tracks@.len() ==> end_at(#[trigger] f.tracks@[k].clips@, f.tracks@[k].clips@.len() as int)
                == end_at(o.tracks@[k].clips@, o.tracks@[k].clips@.len() as int),
        timeline_fits(o) ==> timeline_fits(f),
        frames_fit_i32(o) ==> frames_fit_i32(f),
{
    assert forall|k: int| 0 <= k < o.tracks@.len() implies end_at(
        #[trigger] f.tracks@[k].clips@,
        f.tracks@[k].clips@.len() as int,
    ) == end_at(o.tracks@[k].clips@, o.tracks@[k].clips@.len() as int) by {
        let a = f.tracks@[k].clips@;
        let b = o.tracks@[k].clips@;
        if f != o {
            assert forall|j: int| 0 <= j < a.len() implies #[trigger] a[j].offset_frames + a[j].duration_frames
                == b[j].offset_frames + b[j].duration_frames by {
                assert(a[j] == f.tracks@[k].clips@[j]);
            }
            lemma_end_at_same_extent(a, b, a.len() as int);
        }
    }
    if timeline_fits(o) {
        assert forall|k: int| 0 <= k < f.tracks@.len() implies #[trigger] track_fits(f.tracks@[k].clips@) by {
            assert(track_fits(o.tracks@[k].clips@));
        }
    }
}

/// Toggles the selection of one clip. With `exclusive`, a clip that is already selected is left
/// as it is; otherwise every other clip is deselected first.
pub fn select_clip(timeline: &mut Timeline, track_index: usize, clip_index: usize, exclusive: bool)
    requires
        track_index < old(timeline).tracks@.len(),
        clip_index < old(timeline).tracks@[track_index as int].clips@.len(),
    ensures
        select_result(*old(timeline), *final(timeline), track_index as int, clip_index as int, exclusive),
{
    if exclusive {
        if timeline.tracks[track_index].clips[clip_index].is_selected {
            return;
        }
        deselect_all_clips(timeline);
    }
    let ghost mid = *timeline;
    let sel = timeline.tracks[track_index].clips[clip_index].is_selected;
    timeline.tracks[track_index].clips[clip_index].is_selected = !sel;
    proof {
        let o = *old(timeline);
        let f = *timeline;
        assert forall|k: int| 0 <= k < o.tracks@.len() implies #[trigger] f.tracks@[k].clips@.len()
            == o.tracks@[k].clips@.len() by {
            if exclusive {
                assert(mid.tracks@[k].clips@.len() == o.tracks@[k].clips@.len());
            }
        }
        assert forall|k: int, c: int|
            0 <= k < o.tracks@.len() && 0 <= c < o.tracks@[k].clips@.len() implies #[trigger] f.tracks@[
            k].clips@[c] == if k == track_index && c == clip_index {
            with_selected(o.tracks@[track_index as int].clips@[clip_index as int], !o.tracks@[track_index as int].clips@[clip_index as int].is_selected)
        } else if exclusive {
            with_selected(o.tracks@[k].clips@[c], false)
        } else {
            o.tracks@[k].clips@[c]
        } by {
            if exclusive {
                assert(mid.tracks@[k].clips@[c] == with_selected(o.tracks@[k].clips@[c], false));
            }
            if k == track_index {
                assert(f.tracks@[k].clips@ == mid.tracks@[k].clips@.update(
                    clip_index as int,
                    with_selected(mid.tracks@[k].clips@[clip_index as int], !sel),
                ));
            } else {
                assert(f.tracks@[k] == mid.tracks@[k]);
            }
        }
    }
}

/// Whether the clip at index `i` is in the way of a clip placed over `[pos, pos + dur)`: it
/// starts inside that span, or the span starts inside the clip.
pub open spec fn blocks(clips: Seq<Clip>, i: int, pos: int, dur: int) -> bool {
    (pos <= start_of(clips, i) && start_of(clips, i) < pos + dur) || (start_of(clips, i) <= pos
        && pos < end_of(clips, i))
}

/// Whether a clip of `dur` frames can be placed at `pos` without running into a clip of the
/// track (with `ignore_selected`, selected clips do not count).
pub open spec fn fits_on_track(clips: Seq<Clip>, pos: int, dur: int, ignore_selected: bool) -> bool {
    forall|i: int|
        0 <= i < clips.len() && !(ignore_selected && clips[i].is_selected) ==> !#[trigger] blocks(
            clips,
            i,
            pos,
            dur,
        )
}

/// Checks whether a clip of `place_duration_frames` frames fits at `place_position_frames`.
pub fn can_fit_clip(
    track: &Track,
    place_position_frames: u32,
    place_duration_frames: u32,
    ignore_selected: bool,
) -> (fits: bool)
    requires
        track_fits(track.clips@),
        place_position_frames + place_duration_frames <= u32::MAX,
    ensures
        fits == fits_on_track(
            track.clips@,
            place_position_frames as int,
            place_duration_frames as int,
            ignore_selected,
        ),
{
    let start_frames = place_position_frames;
    let end_frames = place_position_frames + place_duration_frames;
    let ghost clips = track.clips@;
    let n = track.clips.len();
    let mut last_clip_end: u32 = 0;
    let mut i: usize = 0;
    while i < n
        invariant
            n == clips.len(),
            clips == track.clips@,
            track_fits(clips),
            i <= n,
            last_clip_end == end_at(clips, i as int),
            end_frames == start_frames + place_duration_frames,
            start_frames == place_position_frames,
            forall|j: int|
                0 <= j < i && !(ignore_selected && clips[j].is_selected) ==> !#[trigger] blocks(
                    clips,
                    j,
                    start_frames as int,
                    place_duration_frames as int,
                ),
        decreases n - i,
    {
        proof {
            lemma_clip_in_track(clips, i as int);
        }
        let clip = &track.clips[i];
        let clip_start_time = last_clip_end + clip.offset_frames;
        let clip_end_time = clip_start_time + clip.duration_frames;
        last_clip_end = clip_end_time;
        if !ignore_selected || !clip.is_selected {
            if !((clip_start_time < start_frames || clip_start_time >= end_frames) && (start_frames
                < clip_start_time || start_frames >= clip_end_time)) {
                assert(blocks(clips, i as int, start_frames as int, place_duration_frames as int));
                assert(!fits_on_track(
                    clips,
                    place_position_frames as int,
                    place_duration_frames as int,
                    ignore_selected,
                ));
                return false;
            }
        }
        i = i + 1;
    }
    true
}

/// Takes the clip at `index` off the track; the clip after it keeps its start frame.
pub fn remove_clip(track: &mut Track, index: usize) -> (removed: Clip)
    requires
        index < old(track).clips@.len(),
        track_fits(old(track).clips@),
    ensures
        removed == old(track).clips@[index as int],
        placements(final(track).clips@) == placements(old(track).clips@).remove(index as int),
        track_fits(final(track).clips@),
{
    let ghost old_clips = track.clips@;
    proof {
        lemma_clip_in_track(old_clips, index as int);
        if index + 1 < old_clips.len() {
            lemma_clips_ordered(old_clips, index as int, index + 1);
        }
    }
    let removed_clip = track.clips.remove(index);
    if index < track.clips.len() {
        let extra = removed_clip.offset_frames + removed_clip.duration_frames;
        track.clips[index].offset_frames = track.clips[index].offset_frames + extra;
    }
    proof {
        lemma_end_at_after_remove(old_clips, track.clips@, index as int);
        let new_clips = track.clips@;
        assert(placements(new_clips) =~= placements(old_clips).remove(index as int));
    }
    removed_clip
}

proof fn lemma_end_at_after_remove(old_clips: Seq<Clip>, new_clips: Seq<Clip>, k: int)
    requires
        0 <= k < old_clips.len(),
        new_clips.len() == old_clips.len() - 1,
        forall|j: int| 0 <= j < k ==> new_clips[j] == old_clips[j],
        forall|j: int|
            k < j < new_clips.len() ==> #[trigger] new_clips[j] == old_clips[j + 1],
        k < new_clips.len() ==> new_clips[k] == (Clip {
            offset_frames: (old_clips[k + 1].offset_frames + old_clips[k].offset_frames
                + old_clips[k].duration_frames) as u32,
            ..old_clips[k + 1]
        }),
        k < new_clips.len() ==> old_clips[k + 1].offset_frames + old_clips[k].offset_frames
            + old_clips[k].duration_frames <= u32::MAX,
    ensures
        forall|j: int| 0 <= j <= k ==> #[trigger] end_at(new_clips, j) == end_at(old_clips, j),
        forall|j: int|
            k < j <= new_clips.len() ==> #[trigger] end_at(new_clips, j) == end_at(
                old_clips,
                j + 1,
            ),
        forall|j: int|
            0 <= j < new_clips.len() ==> #[trigger] start_of(new_clips, j) == start_of(
                old_clips,
                if j < k {
                    j
                } else {
                    j + 1
                },
            ),
{
    assert forall|j: int| 0 <= j <= k implies #[trigger] end_at(new_clips, j) == end_at(old_clips, j) by {
        lemma_end_at_same_prefix(new_clips, old_clips, j);
    }
    assert forall|j: int| k < j <= new_clips.len() implies #[trigger] end_at(new_clips, j) == end_at(
        old_clips,
        j + 1,
    ) by {
        lemma_end_at_after_remove_tail(old_clips, new_clips, k, j);
    }
}

proof fn lemma_end_at_after_remove_tail(old_clips: Seq<Clip>, new_clips: Seq<Clip>, k: int, j: int)
    requires
        0 <= k < old_clips.len(),
        new_clips.len() == old_clips.len() - 1,
        forall|i: int| 0 <= i < k ==> new_clips[i] == old_clips[i],
        forall|i: int|
            k < i < new_clips.len() ==> #[trigger] new_clips[i] == old_clips[i + 1],
        k < new_clips.len() ==> new_clips[k] == (Clip {
            offset_frames: (old_clips[k + 1].offset_frames + old_clips[k].offset_frames
                + old_clips[k].duration_frames) as u32,
            ..old_clips[k + 1]
        }),
        k < new_clips.len() ==> old_clips[k + 1].offset_frames + old_clips[k].offset_frames
            + old_clips[k].duration_frames <= u32::MAX,
        k < j <= new_clips.len(),
    ensures
        end_at(new_clips, j) == end_at(old_clips, j + 1),
    decreases j,
{
    if j == k + 1 {
        lemma_end_at_same_prefix(new_clips, old_clips, k);
        assert(end_at(old_clips, k + 1) == end_at(old_clips, k) + old_clips[k].offset_frames
            + old_clips[k].duration_frames);
        assert(end_at(old_clips, k + 2) == end_at(old_clips, k + 1) + old_clips[k + 1].offset_frames
            + old_clips[k + 1].duration_frames);
        assert(end_at(new_clips, k + 1) == end_at(new_clips, k) + new_clips[k].offset_frames
            + new_clips[k].duration_frames);
    } else {
        lemma_end_at_after_remove_tail(old_clips, new_clips, k, j - 1);
    }
}

/// No clip that starts before `pos` is still running at `pos`.
pub open spec fn clear_at(clips: Seq<Clip>, pos: int) -> bool {
    forall|i: int| 0 <= i < clips.len() && start_of(clips, i) < pos ==> end_of(clips, i) <= pos
}

/// There are `dur` free frames after `pos` before the next clip starts.
pub open spec fn room_after(clips: Seq<Clip>, pos: int, dur: int) -> bool {
    forall|i: int| 0 <= i < clips.len() && pos <= start_of(clips, i) ==> pos + dur <= start_of(clips, i)
}

/// Places `clip` on the track so that it starts at `position_frames`, keeping every other clip
/// where it is. When the next clip starts too early for it to fit, the track is left as it was
/// and the clip is handed back.
pub fn insert_clip(track: &mut Track, clip: Clip, position_frames: u32) -> (res: Result<(), Clip>)
    requires
        track_fits(old(track).clips@),
        clear_at(old(track).clips@, position_frames as int),
        position_frames + clip.duration_frames <= u32::MAX,
    ensures
        res.is_ok() <==> room_after(old(track).clips@, position_frames as int, clip.duration_frames as int),
        res matches Err(c) ==> c == clip && final(track).clips@ == old(track).clips@,
        res.is_ok() ==> placements(final(track).clips@) == placements(old(track).clips@).insert(
            insert_index(old(track).clips@, position_frames as int),
            (position_frames as int, placed(clip)),
        ),
        track_fits(final(track).clips@),
{
    let mut clip = clip;
    let ghost old_clips = track.clips@;
    let n = track.clips.len();
    // Find the first clip that starts at or after the position.
    let mut after_index: usize = 0;
    let mut before_end_time: u32 = 0;
    while after_index < n
        invariant
            n == old_clips.len(),
            old_clips == track.clips@,
            track_fits(old_clips),
            after_index <= n,
            before_end_time == end_at(old_clips, after_index as int),
            forall|j: int| 0 <= j < after_index ==> start_of(old_clips, j) < position_frames,
        ensures
            after_index <= n,
            before_end_time == end_at(old_clips, after_index as int),
            forall|j: int| 0 <= j < after_index ==> start_of(old_clips, j) < position_frames,
            after_index < n ==> start_of(old_clips, after_index as int) >= position_frames,
        decreases n - after_index,
    {
        proof {
            lemma_clip_in_track(old_clips, after_index as int);
        }
        let c = &track.clips[after_index];
        let clip_start_time = before_end_time + c.offset_frames;
        if clip_start_time >= position_frames {
            break;
        }
        before_end_time = clip_start_time + c.duration_frames;
        after_index = after_index + 1;
    }
    let k = after_index;
    proof {
        lemma_insert_index_is_first(old_clips, position_frames as int, k as int);
        if k > 0 {
            lemma_clip_in_track(old_clips, k - 1);
            assert(end_of(old_clips, k - 1) == end_at(old_clips, k as int));
        }
    }
    let clip_offset_frames = position_frames - before_end_time;
    if k < n {
        proof {
            lemma_clip_in_track(old_clips, k as int);
        }
        let next_offset = track.clips[k].offset_frames;
        if next_offset < clip_offset_frames + clip.duration_frames {
            proof {
                assert(!room_after(old_clips, position_frames as int, clip.duration_frames as int));
            }
            return Err(clip);
        }
        track.clips[k].offset_frames = next_offset - (clip_offset_frames + clip.duration_frames);
    }
    proof {
        assert(room_after(old_clips, position_frames as int, clip.duration_frames as int)) by {
            assert forall|i: int|
                0 <= i < old_clips.len() && position_frames <= start_of(old_clips, i) implies position_frames
                + clip.duration_frames <= start_of(old_clips, i) by {
                if i > k {
                    lemma_clips_ordered(old_clips, k as int, i);
                }
            }
        }
    }
    clip.offset_frames = clip_offset_frames;
    let ghost mid = track.clips@;
    track.clips.insert(k, clip);
    proof {
        let new_clips = track.clips@;
        lemma_end_at_after_insert(old_clips, new_clips, k as int, position_frames as int);
        assert(placements(new_clips) =~= placements(old_clips).insert(
            k as int,
            (position_frames as int, placed(clip)),
        ));
    }
    Ok(())
}

/// Taking a clip off a track and inserting it again at the frame where it started gives back
/// the same track, provided the clip before it started strictly earlier: the insertion fits,
/// lands at the old index, and restores every offset.
pub proof fn law_remove_then_insert_restores(clips: Seq<Clip>, removed_from: Seq<Clip>, i: int)
    requires
        track_fits(clips),
        0 <= i < clips.len(),
        i > 0 ==> start_of(clips, i - 1) < start_of(clips, i),
        placements(removed_from) == placements(clips).remove(i),
    ensures
        clear_at(removed_from, start_of(clips, i)),
        room_after(removed_from, start_of(clips, i), clips[i].duration_frames as int),
        insert_index(removed_from, start_of(clips, i)) == i,
        forall|restored: Seq<Clip>|
            placements(restored) == #[trigger] placements(removed_from).insert(
                insert_index(removed_from, start_of(clips, i)),
                (start_of(clips, i), placed(clips[i])),
            ) ==> restored == clips,
{
    let s = start_of(clips, i);
    let m = removed_from;
    assert(m.len() == placements(m).len());
    assert(m.len() == clips.len() - 1);
    lemma_clip_in_track(clips, i);
    assert forall|j: int| 0 <= j < m.len() implies start_of(m, j) == start_of(
        clips,
        if j < i {
            j
        } else {
            j + 1
        },
    ) && end_of(m, j) == end_of(
        clips,
        if j < i {
            j
        } else {
            j + 1
        },
    ) by {
        assert(placements(m)[j] == placements(clips).remove(i)[j]);
    }
    assert forall|j: int| 0 <= j < m.len() && j < i implies start_of(m, j) < s && end_of(m, j) <= s by {
        lemma_clips_ordered(clips, j, i);
        if j < i - 1 {
            lemma_clips_ordered(clips, j, i - 1);
        }
    }
    assert forall|j: int| 0 <= j < m.len() && j >= i implies start_of(m, j) >= s
        + clips[i].duration_frames by {
        lemma_clips_ordered(clips, i, j + 1);
    }
    lemma_insert_index_is_first(m, s, i);
    let p = placements(m).insert(i, (s, placed(clips[i])));
    assert(p =~= placements(clips));
    assert forall|restored: Seq<Clip>|
        placements(restored) == #[trigger] placements(m).insert(
            insert_index(m, s),
            (s, placed(clips[i])),
        ) implies restored == clips by {
        lemma_placements_injective(restored, clips);
    }
}

/// Frame of the last keyframe of a curve.
pub open spec fn last_key_time(f: AnimatedPropertyField) -> int {
    key_time(f.local_offset_frames as int, f.segments@, f.segments@.len() as int)
}

/// `after` is `before` with the keyframe at `pos` set to `value`: an existing keyframe at that frame
/// gets the value; otherwise a keyframe is added in time order, and the segment that leads up
/// to it is linear while the segment after it keeps its easing.
pub open spec fn keyframe_set(
    before: AnimatedPropertyField,
    after: AnimatedPropertyField,
    pos: int,
    value: PropertyValue,
) -> bool {
    let ks = keyframes(before);
    let idx = keys_before(ks, pos, ks.len() as int);
    if idx < ks.len() && ks[idx].0 == pos {
        &&& keyframes(after) == ks.update(idx, (pos, value))
        &&& interpolations(after) == interpolations(before)
    } else {
        &&& keyframes(after) == ks.insert(idx, (pos, value))
        &&& interpolations(after) == interpolations(before).insert(
            if idx == 0 {
                0
            } else {
                idx - 1
            },
            CurveInterpolation::Linear,
        )
    }
}

/// A keyframe can go at `pos` on the curve: the curve's frames fit an `i32`, and so does the
/// length of a segment added before its start or after its end.
pub open spec fn keyframe_insertable(f: AnimatedPropertyField, pos: int) -> bool {
    &&& field_fits(f)
    &&& pos < f.local_offset_frames ==> f.local_offset_frames - pos <= i32::MAX
    &&& pos > last_key_time(f) ==> pos - last_key_time(f) <= i32::MAX
}

/// Sets a keyframe of the curve at `position_frames` to `value` (see `keyframe_set`).
pub fn insert_keyframe(
    field: &mut AnimatedPropertyField,
    position_frames: i32,
    value: PropertyValue,
) -> (inserted: bool)
    requires
        keyframe_insertable(*old(field), position_frames as int),
    ensures
        inserted,
        field_fits(*final(field)),
        keyframe_set(*old(field), *final(field), position_frames as int, value),
{
    let ghost o = *field;
    let ghost ks = keyframes(o);
    let ghost segs = o.segments@;
    let off = field.local_offset_frames;
    let n = field.segments.len();
    proof {
        lemma_key_time_monotonic(off as int, segs, 0, n as int);
    }
    if position_frames < off {
        let new_curve_duration = (off - position_frames) as u32;
        let seg = CurveSegment {
            duration_frames: new_curve_duration,
            end_value: field.start_value,
            interpolation: CurveInterpolation::Linear,
        };
        field.segments.insert(0, seg);
        field.local_offset_frames = position_frames;
        field.start_value = value;
        proof {
            let f = *field;
            let d = new_curve_duration as int;
            assert(f.local_offset_frames == position_frames);
            assert(key_time(position_frames as int, f.segments@, 0) == position_frames);
            assert forall|j: int| 1 <= j <= n + 1 implies #[trigger] key_time(
                position_frames as int,
                f.segments@,
                j,
            ) == key_time(off as int, segs, j - 1) by {
                lemma_key_time_shift(off as int, segs, f.segments@, d, j - 1);
            }
            assert forall|j: int| 0 <= j < ks.len() implies #[trigger] ks[j].0 >= position_frames
                + 1 by {
                lemma_key_time_monotonic(off as int, segs, 0, j);
            }
            lemma_keys_before_split(ks, position_frames as int, 0);
            assert(keyframes(f) =~= ks.insert(0, (position_frames as int, value)));
            assert(interpolations(f) =~= interpolations(o).insert(0, CurveInterpolation::Linear));
            assert(key_time(position_frames as int, f.segments@, f.segments@.len() as int) == key_time(
                off as int,
                segs,
                n as int,
            ));
        }
        return true;
    }
    if position_frames == off {
        field.start_value = value;
        proof {
            let f = *field;
            assert forall|j: int| 0 <= j < ks.len() implies #[trigger] ks[j].0 >= position_frames by {
                lemma_key_time_monotonic(off as int, segs, 0, j);
            }
            lemma_keys_before_split(ks, position_frames as int, 0);
            assert(keyframes(f) =~= ks.update(0, (position_frames as int, value)));
            assert(interpolations(f) =~= interpolations(o));
        }
        return true;
    }
    let mut last_end: i32 = off;
    let mut i: usize = 0;
    while i < n
        invariant
            field_fits(o),
            *field == o,
            segs == o.segments@,
            n == segs.len(),
            off == o.local_offset_frames,
            i <= n,
            last_end == key_time(off as int, segs, i as int),
            last_end < position_frames,
        ensures
            i <= n,
            last_end == key_time(off as int, segs, i as int),
            last_end < position_frames,
            i < n ==> position_frames <= key_time(off as int, segs, i + 1),
            field_fits(o),
            *field == o,
        decreases n - i,
    {
        proof {
            lemma_key_time_monotonic(off as int, segs, i + 1, n as int);
            lemma_key_time_monotonic(off as int, segs, 0, i as int);
        }
        let end = last_end + field.segments[i].duration_frames as i32;
        if position_frames <= end {
            break;
        }
        last_end = end;
        i = i + 1;
    }
    proof {
        assert forall|j: int| 0 <= j <= i implies #[trigger] ks[j].0 < position_frames by {
            lemma_key_time_monotonic(off as int, segs, j, i as int);
        }
        assert forall|j: int| i + 1 <= j < ks.len() implies #[trigger] ks[j].0 >= position_frames by {
            lemma_key_time_monotonic(off as int, segs, i + 1, j);
        }
        lemma_keys_before_split(ks, position_frames as int, i + 1);
    }
    if i < n {
        proof {
            lemma_key_time_monotonic(off as int, segs, i + 1, n as int);
        }
        let dur = field.segments[i].duration_frames;
        let segment_end_time = last_end + dur as i32;
        if position_frames == segment_end_time {
            field.segments[i].end_value = value;
            proof {
                let f = *field;
                lemma_key_time_same_prefix_all(off as int, f.segments@, segs);
                assert(keyframes(f) =~= ks.update(i + 1, (position_frames as int, value)));
                assert(interpolations(f) =~= interpolations(o));
            }
            return true;
        }
        let new_segment_duration = (position_frames - last_end) as u32;
        let old_segment_duration = dur - new_segment_duration;
        field.segments[i].duration_frames = old_segment_duration;
        field.segments.insert(
            i,
            CurveSegment {
                duration_frames: new_segment_duration,
                end_value: value,
                interpolation: CurveInterpolation::Linear,
            },
        );
        proof {
            let f = *field;
            lemma_key_time_split(off as int, segs, f.segments@, i as int, new_segment_duration as int);
            assert(keyframes(f) =~= ks.insert(i + 1, (position_frames as int, value)));
            assert(interpolations(f) =~= interpolations(o).insert(
                i as int,
                CurveInterpolation::Linear,
            ));
        }
        true
    } else {
        let new_dur = (position_frames - last_end) as u32;
        field.segments.push(
            CurveSegment {
                duration_frames: new_dur,
                end_value: value,
                interpolation: CurveInterpolation::Linear,
            },
        );
        proof {
            let f = *field;
            lemma_key_time_split(off as int, segs, f.segments@, n as int, new_dur as int);
            assert(keyframes(f) =~= ks.insert(n + 1, (position_frames as int, value)));
            assert(interpolations(f) =~= interpolations(o).insert(
                n as int,
                CurveInterpolation::Linear,
            ));
        }
        true
    }
}

/// `after` is `before` without a keyframe: `None` is the first keyframe (kept when it is the
/// only one), and `Some(i)` is the keyframe that ends segment `i`, whose frames go to the
/// segment after it.
pub open spec fn keyframe_deleted(before: AnimatedPropertyField, after: AnimatedPropertyField, index: Option<usize>) -> bool {
    match index {
        None => if before.segments@.len() == 0 {
            after == before
        } else {
            &&& keyframes(after) == keyframes(before).drop_first()
            &&& interpolations(after) == interpolations(before).drop_first()
            &&& field_fits(after)
        },
        Some(i) => {
            &&& keyframes(after) == keyframes(before).remove(i + 1)
            &&& interpolations(after) == interpolations(before).remove(i as int)
        },
    }
}

/// Removes a keyframe: `None` is the curve's first keyframe (kept when it is the only one), and
/// `Some(i)` is the keyframe that ends segment `i`, whose frames go to the segment after it.
pub fn delete_keyframe(field: &mut AnimatedPropertyField, index: Option<usize>)
    requires
        field_fits(*old(field)),
        index matches Some(i) ==> i < old(field).segments@.len(),
    ensures
        keyframe_deleted(*old(field), *final(field), index),
{
    let ghost o = *field;
    let ghost segs = o.segments@;
    let ghost ks = keyframes(o);
    let off = field.local_offset_frames;
    match index {
        None => {
            if field.segments.len() == 0 {
                return;
            }
            proof {
                lemma_key_time_monotonic(off as int, segs, 1, segs.len() as int);
                assert(key_time(off as int, segs, 0) == off);
                assert(key_time(off as int, segs, 1) == key_time(off as int, segs, 0)
                    + segs[0].duration_frames);
                assert(segs[0].duration_frames <= i32::MAX);
            }
            let first = field.segments[0];
            field.start_value = first.end_value;
            field.local_offset_frames = off + first.duration_frames as i32;
            field.segments.remove(0);
            proof {
                let f = *field;
                assert forall|j: int| 0 <= j <= f.segments@.len() implies #[trigger] key_time(
                    f.local_offset_frames as int,
                    f.segments@,
                    j,
                ) == key_time(off as int, segs, j + 1) by {
                    lemma_key_time_drop_first(off as int, segs, f.segments@, j);
                }
                assert(keyframes(f) =~= ks.drop_first());
                assert(interpolations(f) =~= interpolations(o).drop_first());
            }
        },
        Some(index) => {
            proof {
                if index + 1 < segs.len() {
                    lemma_key_time_monotonic(off as int, segs, 0, index as int);
                    lemma_key_time_monotonic(off as int, segs, index + 2, segs.len() as int);
                }
            }
            let removed_segment = field.segments.remove(index);
            if index < field.segments.len() {
                let d = field.segments[index].duration_frames + removed_segment.duration_frames;
                field.segments[index].duration_frames = d;
            }
            proof {
                let f = *field;
                lemma_key_time_merge(off as int, segs, f.segments@, index as int);
                assert(keyframes(f) =~= ks.remove(index + 1));
                assert(interpolations(f) =~= interpolations(o).remove(index as int));
            }
        },
    }
}

proof fn lemma_key_time_same_prefix_all(off: int, a: Seq<CurveSegment>, b: Seq<CurveSegment>)
    requires
        a.len() == b.len(),
        forall|j: int| 0 <= j < a.len() ==> a[j].duration_frames == b[j].duration_frames,
    ensures
        forall|j: int| 0 <= j <= a.len() ==> #[trigger] key_time(off, a, j) == key_time(off, b, j),
{
    assert forall|j: int| 0 <= j <= a.len() implies #[trigger] key_time(off, a, j) == key_time(off, b, j) by {
        crate::timeline::lemma_key_time_same_prefix(off, a, b, j);
    }
}

proof fn lemma_key_time_drop_first(off: int, old_segs: Seq<CurveSegment>, new_segs: Seq<CurveSegment>, j: int)
    requires
        old_segs.len() > 0,
        new_segs == old_segs.drop_first(),
        0 <= j <= new_segs.len(),
    ensures
        key_time(off + old_segs[0].duration_frames, new_segs, j) == key_time(off, old_segs, j + 1),
    decreases j,
{
    assert(key_time(off, old_segs, 1) == key_time(off, old_segs, 0) + old_segs[0].duration_frames);
    if j > 0 {
        lemma_key_time_drop_first(off, old_segs, new_segs, j - 1);
        assert(key_time(off + old_segs[0].duration_frames, new_segs, j) == key_time(
            off + old_segs[0].duration_frames,
            new_segs,
            j - 1,
        ) + new_segs[j - 1].duration_frames);
        assert(key_time(off, old_segs, j + 1) == key_time(off, old_segs, j) + old_segs[j].duration_frames);
    }
}

/// When the keys before `m` lie before `pos` and the others do not, `m` keys lie before `pos`.
proof fn lemma_keys_before_split(ks: Seq<(int, PropertyValue)>, pos: int, m: int)
    requires
        0 <= m <= ks.len(),
        forall|j: int| 0 <= j < m ==> #[trigger] ks[j].0 < pos,
        forall|j: int| m <= j < ks.len() ==> #[trigger] ks[j].0 >= pos,
    ensures
        keys_before(ks, pos, ks.len() as int) == m,
{
    lemma_keys_before_prefix(ks, pos, m);
    lemma_keys_before_rest(ks, pos, m, ks.len() as int);
}

proof fn lemma_keys_before_prefix(ks: Seq<(int, PropertyValue)>, pos: int, i: int)
    requires
        0 <= i <= ks.len(),
        forall|j: int| 0 <= j < i ==> #[trigger] ks[j].0 < pos,
    ensures
        keys_before(ks, pos, i) == i,
    decreases i,
{
    if i > 0 {
        lemma_keys_before_prefix(ks, pos, i - 1);
    }
}

proof fn lemma_keys_before_rest(ks: Seq<(int, PropertyValue)>, pos: int, m: int, i: int)
    requires
        0 <= m <= i <= ks.len(),
        keys_before(ks, pos, m) == m,
        forall|j: int| m <= j < ks.len() ==> #[trigger] ks[j].0 >= pos,
    ensures
        keys_before(ks, pos, i) == m,
    decreases i,
{
    if i > m {
        lemma_keys_before_rest(ks, pos, m, i - 1);
    }
}

/// Distance between two frames.
pub open spec fn frame_distance(a: int, b: int) -> int {
    if a >= b {
        a - b
    } else {
        b - a
    }
}

/// Setting a keyframe at a frame where the curve has none and then deleting that keyframe
/// leaves the curve's keyframes and easings as they were: the new keyframe is the one at its
/// position among the keyframes in time order (`None` when it became the first).
pub proof fn law_insert_then_delete_keyframe(
    f: AnimatedPropertyField,
    g: AnimatedPropertyField,
    h: AnimatedPropertyField,
    pos: int,
    value: PropertyValue,
)
    requires
        forall|k: int| 0 <= k < keyframes(f).len() ==> (#[trigger] keyframes(f)[k]).0 != pos,
        keyframe_set(f, g, pos, value),
        keyframe_deleted(
            g,
            h,
            if keys_before(keyframes(f), pos, keyframes(f).len() as int) == 0 {
                None
            } else {
                Some((keys_before(keyframes(f), pos, keyframes(f).len() as int) - 1) as usize)
            },
        ),
    ensures
        keyframes(h) == keyframes(f),
        interpolations(h) == interpolations(f),
{
    let ks = keyframes(f);
    let idx = keys_before(ks, pos, ks.len() as int);
    lemma_keys_before_bounds(ks, pos, ks.len() as int);
    if idx < ks.len() {
        assert(ks[idx].0 != pos);
    }
    assert(keyframes(g) == ks.insert(idx, (pos, value)));
    assert(keyframes(g).len() == g.segments@.len() + 1);
    assert(g.segments.len() == g.segments@.len());
    if idx == 0 {
        assert(g.segments@.len() > 0);
        assert(keyframes(h) =~= ks);
        assert(interpolations(h) =~= interpolations(f));
    } else {
        assert(keyframes(h) =~= ks);
        assert(interpolations(h) =~= interpolations(f));
    }
}

/// At most `n` of the first `n` keyframes come before a frame.
proof fn lemma_keys_before_bounds(ks: Seq<(int, PropertyValue)>, pos: int, n: int)
    requires
        0 <= n,
    ensures
        0 <= keys_before(ks, pos, n) <= n,
    decreases n,
{
    if n > 0 {
        lemma_keys_before_bounds(ks, pos, n - 1);
    }
}

/// Snaps `offset` to the closest of `snapping_points` that lies nearer than `threshold`
/// (the first such point on a tie); keeps `offset` when there is none.
/// `snapped` is what snapping `offset` to `points` within `threshold` frames gives: the nearest
/// point closer than `threshold` (the first of equally near ones), or `offset` itself when no
/// point is that close or `threshold` is not positive.
pub open spec fn is_snapped(snapped: i32, offset: i32, points: Seq<i32>, threshold: i32) -> bool {
    &&& threshold <= 0 ==> snapped == offset
    &&& threshold > 0 ==> {
        ||| (snapped == offset && forall|i: int|
            0 <= i < points.len() ==> frame_distance(#[trigger] points[i] as int, offset as int) >= threshold)
        ||| exists|m: int|
            0 <= m < points.len() && snapped == points[m] && frame_distance(points[m] as int, offset as int)
                < threshold && (forall|i: int|
                0 <= i < points.len() ==> frame_distance(#[trigger] points[i] as int, offset as int)
                    >= frame_distance(points[m] as int, offset as int)) && (forall|i: int|
                0 <= i < m ==> frame_distance(#[trigger] points[i] as int, offset as int) > frame_distance(
                    points[m] as int,
                    offset as int,
                ))
    }
}

pub fn snap_offset(offset: i32, snapping_points: &[i32], threshold: i32) -> (snapped: i32)
    requires
        forall|i: int|
            0 <= i < snapping_points@.len() ==> i32::MIN < #[trigger] snapping_points@[i] - offset
                <= i32::MAX,
    ensures
        threshold <= 0 ==> snapped == offset,
        threshold > 0 ==> {
            ||| (snapped == offset && forall|i: int|
                0 <= i < snapping_points@.len() ==> frame_distance(
                    #[trigger] snapping_points@[i] as int,
                    offset as int,
                ) >= threshold)
            ||| exists|m: int|
                0 <= m < snapping_points@.len() && snapped == snapping_points@[m] && frame_distance(
                    snapping_points@[m] as int,
                    offset as int,
                ) < threshold && (forall|i: int|
                    0 <= i < snapping_points@.len() ==> frame_distance(
                        #[trigger] snapping_points@[i] as int,
                        offset as int,
                    ) >= frame_distance(snapping_points@[m] as int, offset as int)) && (forall|
                    i: int,
                |
                    0 <= i < m ==> frame_distance(#[trigger] snapping_points@[i] as int, offset as int)
                        > frame_distance(snapping_points@[m] as int, offset as int))
        },
{
    if threshold <= 0 {
        return offset;
    }
    let pts = snapping_points;
    let n = pts.len();
    let mut closest_snapped = offset;
    let mut closest_distance = threshold;
    let mut found: bool = false;
    let ghost mut best: int = 0;
    let mut i: usize = 0;
    while i < n
        invariant
            n == pts@.len(),
            i <= n,
            threshold > 0,
            forall|j: int| 0 <= j < n ==> i32::MIN < #[trigger] pts@[j] - offset <= i32::MAX,
            !found ==> closest_snapped == offset && closest_distance == threshold,
            found ==> 0 <= best < i && closest_snapped == pts@[best] && closest_distance
                == frame_distance(pts@[best] as int, offset as int),
            closest_distance <= threshold,
            forall|j: int|
                0 <= j < i ==> frame_distance(#[trigger] pts@[j] as int, offset as int)
                    >= closest_distance,
            found ==> forall|j: int|
                0 <= j < best ==> frame_distance(#[trigger] pts@[j] as int, offset as int)
                    > closest_distance,
            found ==> closest_distance < threshold,
        decreases n - i,
    {
        let snapping_point = pts[i];
        let diff = snapping_point - offset;
        let current_distance = if diff < 0 {
            -diff
        } else {
            diff
        };
        if current_distance < closest_distance {
            closest_snapped = snapping_point;
            closest_distance = current_distance;
            found = true;
            proof {
                best = i as int;
            }
        }
        i = i + 1;
    }
    closest_snapped
}

/// Every frame number of every track fits in an `i32`.
pub open spec fn frames_fit_i32(t: Timeline) -> bool {
    forall|k: int|
        0 <= k < t.tracks@.len() ==> end_at(
            #[trigger] t.tracks@[k].clips@,
            t.tracks@[k].clips@.len() as int,
        ) <= i32::MAX
}

/// `x` is the start or end frame of a clip whose selection flag is `selected`, on `clips`.
pub open spec fn is_clip_edge(clips: Seq<Clip>, x: int, selected: bool) -> bool {
    exists|i: int|
        0 <= i < clips.len() && clips[i].is_selected == selected && (x == #[trigger] start_of(
            clips,
            i,
        ) || x == end_of(clips, i))
}

/// `x` is an edge of a clip on any track with the given selection flag.
pub open spec fn is_timeline_edge(t: Timeline, x: int, selected: bool) -> bool {
    exists|k: int| 0 <= k < t.tracks@.len() && is_clip_edge(#[trigger] t.tracks@[k].clips@, x, selected)
}

/// Frames a dragged selection may snap to: frame 0 and the edges of unselected clips.
pub open spec fn is_snap_target(t: Timeline, x: int) -> bool {
    x == 0 || is_timeline_edge(t, x, false)
}

/// Moves that bring an edge of a selected clip onto a snap target.
pub open spec fn is_snap_offset(t: Timeline, d: int) -> bool {
    exists|target: int, source: int|
        #[trigger] is_snap_target(t, target) && #[trigger] is_timeline_edge(t, source, true) && d
            == target - source
}

/// Strictly increasing.
pub open spec fn strictly_sorted(s: Seq<i32>) -> bool {
    forall|i: int, j: int| 0 <= i < j < s.len() ==> s[i] < s[j]
}

/// Adds `x` to a strictly increasing list unless it is already there.
fn insert_sorted(v: &mut Vec<i32>, x: i32)
    requires
        strictly_sorted(old(v)@),
    ensures
        strictly_sorted(final(v)@),
        final(v)@.contains(x),
        forall|y: i32| #[trigger] final(v)@.contains(y) ==> old(v)@.contains(y) || y == x,
        forall|y: i32| #[trigger] old(v)@.contains(y) ==> final(v)@.contains(y),
{
    let n = v.len();
    let mut i: usize = 0;
    while i < n && v[i] < x
        invariant
            i <= n,
            n == v@.len(),
            v@ == old(v)@,
            forall|j: int| 0 <= j < i ==> v@[j] < x,
        decreases n - i,
    {
        i = i + 1;
    }
    if i < n && v[i] == x {
        proof {
            assert(v@[i as int] == x);
            assert(v@.contains(x));
        }
        return;
    }
    let ghost before = v@;
    assert(before == old(v)@);
    v.insert(i, x);
    proof {
        assert forall|y: i32| v@.contains(y) <==> (before.contains(y) || y == x) by {
            if v@.contains(y) {
                let j = choose|j: int| 0 <= j < v@.len() && v@[j] == y;
                if j < i {
                    assert(before[j] == y);
                } else if j > i {
                    assert(before[j - 1] == y);
                }
            }
            if before.contains(y) {
                let j = choose|j: int| 0 <= j < before.len() && before[j] == y;
                if j < i {
                    assert(v@[j] == y);
                } else {
                    assert(v@[j + 1] == y);
                }
            }
            if y == x {
                assert(v@[i as int] == y);
            }
        }
        assert(v@[i as int] == x);
        assert(v@.contains(x));
    }
}

/// The start and end frames of the clips of a track whose selection flag is `selected`.
fn clip_edges(track: &Track, selected: bool, out: &mut Vec<u32>)
    requires
        track_fits(track.clips@),
    ensures
        forall|x: u32| final(out)@.contains(x) <==> (old(out)@.contains(x) || is_clip_edge(track.clips@, x as int, selected)),
{
    let ghost clips = track.clips@;
    let n = track.clips.len();
    let mut last_clip_end: u32 = 0;
    let mut i: usize = 0;
    while i < n
        invariant
            n == clips.len(),
            clips == track.clips@,
            track_fits(clips),
            i <= n,
            last_clip_end == end_at(clips, i as int),
            forall|x: u32|
                out@.contains(x) <==> (old(out)@.contains(x) || exists|j: int|
                    0 <= j < i && clips[j].is_selected == selected && (x == #[trigger] start_of(
                        clips,
                        j,
                    ) || x == end_of(clips, j))),
        decreases n - i,
    {
        proof {
            lemma_clip_in_track(clips, i as int);
        }
        let clip = &track.clips[i];
        let clip_start_time = last_clip_end + clip.offset_frames;
        let clip_end_time = clip_start_time + clip.duration_frames;
        let ghost before = out@;
        if clip.is_selected == selected {
            out.push(clip_start_time);
            out.push(clip_end_time);
        }
        proof {
            assert forall|x: u32| out@.contains(x) <==> (old(out)@.contains(x) || exists|j: int|
                0 <= j < i + 1 && clips[j].is_selected == selected && (x == #[trigger] start_of(
                    clips,
                    j,
                ) || x == end_of(clips, j))) by {
                if clips[i as int].is_selected == selected {
                    assert(out@ == before.push(clip_start_time).push(clip_end_time));
                    if out@.contains(x) && !before.contains(x) {
                        assert(x == clip_start_time || x == clip_end_time);
                        assert(start_of(clips, i as int) == clip_start_time);
                    }
                    if x == start_of(clips, i as int) {
                        assert(out@[before.len() as int] == x);
                    }
                    if x == end_of(clips, i as int) {
                        assert(out@[before.len() as int + 1] == x);
                    }
                    if before.contains(x) {
                        let j = choose|j: int| 0 <= j < before.len() && before[j] == x;
                        assert(out@[j] == x);
                    }
                } else {
                    if exists|j: int|
                        0 <= j < i + 1 && clips[j].is_selected == selected && (x == #[trigger] start_of(
                            clips,
                            j,
                        ) || x == end_of(clips, j)) {
                        let j = choose|j: int|
                            0 <= j < i + 1 && clips[j].is_selected == selected && (x == #[trigger] start_of(
                                clips,
                                j,
                            ) || x == end_of(clips, j));
                        assert(j < i);
                    }
                }
            }
        }
        last_clip_end = clip_end_time;
        i = i + 1;
    }
}

/// The edges of the clips of every track whose selection flag is `selected`.
fn timeline_edges(timeline: &Timeline, selected: bool) -> (out: Vec<u32>)
    requires
        timeline_fits(*timeline),
    ensures
        forall|x: u32| out@.contains(x) <==> is_timeline_edge(*timeline, x as int, selected),
{
    let mut out: Vec<u32> = Vec::new();
    let n = timeline.tracks.len();
    let mut k: usize = 0;
    while k < n
        invariant
            n == timeline.tracks@.len(),
            timeline_fits(*timeline),
            k <= n,
            forall|x: u32|
                out@.contains(x) <==> exists|j: int|
                    0 <= j < k && is_clip_edge(#[trigger] timeline.tracks@[j].clips@, x as int, selected),
        decreases n - k,
    {
        proof {
            assert(track_fits(timeline.tracks@[k as int].clips@));
        }
        let ghost before = out@;
        clip_edges(&timeline.tracks[k], selected, &mut out);
        proof {
            assert forall|x: u32| out@.contains(x) <==> exists|j: int|
                0 <= j < k + 1 && is_clip_edge(#[trigger] timeline.tracks@[j].clips@, x as int, selected) by {
                if exists|j: int|
                    0 <= j < k + 1 && is_clip_edge(#[trigger] timeline.tracks@[j].clips@, x as int, selected) {
                    let j = choose|j: int|
                        0 <= j < k + 1 && is_clip_edge(#[trigger] timeline.tracks@[j].clips@, x as int, selected);
                    if j < k {
                        assert(before.contains(x));
                    }
                }
            }
        }
        k = k + 1;
    }
    proof {
        assert forall|x: u32| out@.contains(x) <==> is_timeline_edge(*timeline, x as int, selected) by {
            if is_timeline_edge(*timeline, x as int, selected) {
                let j = choose|j: int|
                    0 <= j < timeline.tracks@.len() && is_clip_edge(#[trigger] timeline.tracks@[j].clips@, x as int, selected);
                assert(exists|j: int|
                    0 <= j < k && is_clip_edge(#[trigger] timeline.tracks@[j].clips@, x as int, selected));
            }
        }
    }
    out
}

/// An edge of a clip is a frame of its track.
proof fn lemma_edge_bounds(t: Timeline, x: int, selected: bool)
    requires
        timeline_fits(t),
        frames_fit_i32(t),
        is_timeline_edge(t, x, selected),
    ensures
        0 <= x <= i32::MAX,
{
    let k = choose|k: int| 0 <= k < t.tracks@.len() && is_clip_edge(#[trigger] t.tracks@[k].clips@, x, selected);
    let clips = t.tracks@[k].clips@;
    let i = choose|i: int|
        0 <= i < clips.len() && clips[i].is_selected == selected && (x == #[trigger] start_of(clips, i)
            || x == end_of(clips, i));
    lemma_clip_in_track(clips, i);
}

#[verifier::spinoff_prover]
/// Lists, in increasing order and without repeats, every move that puts an edge of a selected
/// clip onto frame 0 or onto an edge of an unselected clip.
pub fn get_snapping_points(timeline: &Timeline) -> (points: Vec<i32>)
    requires
        timeline_fits(*timeline),
        frames_fit_i32(*timeline),
    ensures
        strictly_sorted(points@),
        forall|d: i32| points@.contains(d) <==> is_snap_offset(*timeline, d as int),
{
    let mut snap_targets = timeline_edges(timeline, false);
    let ghost edges = snap_targets@;
    snap_targets.push(0);
    let sources = timeline_edges(timeline, true);
    proof {
        assert(snap_targets@ == edges.push(0));
        assert forall|x: u32| snap_targets@.contains(x) <==> is_snap_target(*timeline, x as int) by {
            if x == 0 {
                assert(snap_targets@[edges.len() as int] == 0);
            }
            if snap_targets@.contains(x) && x != 0 {
                let j = choose|j: int| 0 <= j < snap_targets@.len() && snap_targets@[j] == x;
                assert(edges[j] == x);
            }
            if edges.contains(x) {
                let j = choose|j: int| 0 <= j < edges.len() && edges[j] == x;
                assert(snap_targets@[j] == x);
            }
        }
        assert forall|x: u32| snap_targets@.contains(x) implies 0 <= x <= i32::MAX by {
            if x != 0 {
                lemma_edge_bounds(*timeline, x as int, false);
            }
        }
        assert forall|x: u32| #[trigger] sources@.contains(x) implies 0 <= x <= i32::MAX by {
            lemma_edge_bounds(*timeline, x as int, true);
        }
    }
    let mut snap_offsets: Vec<i32> = Vec::new();
    let ns = sources.len();
    let nt = snap_targets.len();
    let mut a: usize = 0;
    while a < ns
        invariant
            ns == sources@.len(),
            nt == snap_targets@.len(),
            a <= ns,
            strictly_sorted(snap_offsets@),
            forall|x: u32| snap_targets@.contains(x) ==> 0 <= x <= i32::MAX,
            forall|x: u32| #[trigger] sources@.contains(x) ==> 0 <= x <= i32::MAX,
            forall|x: u32| snap_targets@.contains(x) <==> is_snap_target(*timeline, x as int),
            forall|x: u32| sources@.contains(x) <==> is_timeline_edge(*timeline, x as int, true),
            forall|d: i32|
                snap_offsets@.contains(d) <==> exists|i: int, j: int|
                    0 <= i < a && 0 <= j < nt && d == #[trigger] snap_targets@[j] - #[trigger] sources@[i],
        decreases ns - a,
    {
        let source = sources[a];
        proof {
            assert(sources@.contains(source));
        }
        let mut b: usize = 0;
        while b < nt
            invariant
                ns == sources@.len(),
                nt == snap_targets@.len(),
                a < ns,
                b <= nt,
                source == sources@[a as int],
                0 <= source <= i32::MAX,
                strictly_sorted(snap_offsets@),
                forall|x: u32| snap_targets@.contains(x) ==> 0 <= x <= i32::MAX,
                forall|d: i32|
                    snap_offsets@.contains(d) <==> (exists|i: int, j: int|
                        0 <= i < a && 0 <= j < nt && d == #[trigger] snap_targets@[j] - #[trigger] sources@[i])
                        || (exists|j: int| 0 <= j < b && d == #[trigger] snap_targets@[j] - source),
            decreases nt - b,
        {
            let target = snap_targets[b];
            proof {
                assert(snap_targets@.contains(target));
            }
            let d = (target as i32) - (source as i32);
            let ghost before = snap_offsets@;
            insert_sorted(&mut snap_offsets, d);
            proof {
                assert forall|e: i32| snap_offsets@.contains(e) <==> (exists|i: int, j: int|
                    0 <= i < a && 0 <= j < nt && e == #[trigger] snap_targets@[j] - #[trigger] sources@[i])
                    || (exists|j: int| 0 <= j < b + 1 && e == #[trigger] snap_targets@[j] - source) by {
                    if exists|j: int| 0 <= j < b + 1 && e == #[trigger] snap_targets@[j] - source {
                        let j = choose|j: int| 0 <= j < b + 1 && e == #[trigger] snap_targets@[j] - source;
                        if j < b {
                            assert(before.contains(e));
                        }
                    }
                    if e == d {
                        assert(e == snap_targets@[b as int] - source);
                    }
                }
            }
            b = b + 1;
        }
        proof {
            assert forall|e: i32| snap_offsets@.contains(e) <==> exists|i: int, j: int|
                0 <= i < a + 1 && 0 <= j < nt && e == #[trigger] snap_targets@[j] - #[trigger] sources@[i] by {
                if exists|i: int, j: int|
                    0 <= i < a + 1 && 0 <= j < nt && e == #[trigger] snap_targets@[j] - #[trigger] sources@[i] {
                    let (i, j) = choose|i: int, j: int|
                        0 <= i < a + 1 && 0 <= j < nt && e == #[trigger] snap_targets@[j] - #[trigger] sources@[i];
                    if i == a {
                        assert(exists|j: int| 0 <= j < nt && e == #[trigger] snap_targets@[j] - source);
                    }
                }
            }
        }
        a = a + 1;
    }
    proof {
        assert forall|d: i32| snap_offsets@.contains(d) <==> is_snap_offset(*timeline, d as int) by {
            if snap_offsets@.contains(d) {
                let (i, j) = choose|i: int, j: int|
                    0 <= i < ns && 0 <= j < nt && d == #[trigger] snap_targets@[j] - #[trigger] sources@[i];
                assert(snap_targets@.contains(snap_targets@[j]));
                assert(sources@.contains(sources@[i]));
                assert(is_snap_target(*timeline, snap_targets@[j] as int));
                assert(is_timeline_edge(*timeline, sources@[i] as int, true));
            }
            if is_snap_offset(*timeline, d as int) {
                let (target, source) = choose|target: int, source: int|
                    #[trigger] is_snap_target(*timeline, target) && #[trigger] is_timeline_edge(*timeline, source, true)
                        && d == target - source;
                lemma_edge_bounds(*timeline, source, true);
                if target != 0 {
                    lemma_edge_bounds(*timeline, target, false);
                }
                assert(snap_targets@.contains(target as u32));
                assert(sources@.contains(source as u32));
                let j = choose|j: int| 0 <= j < nt && snap_targets@[j] == target as u32;
                let i = choose|i: int| 0 <= i < ns && sources@[i] == source as u32;
                assert(d == snap_targets@[j] - sources@[i]);
            }
        }
    }
    snap_offsets
}

fn shift_field(f: &mut AnimatedPropertyField, delta: i32)
    requires
        field_shift_fits(*old(f), delta as int),
    ensures
        field_shifted(*old(f), *final(f), delta as int),
{
    f.local_offset_frames = f.local_offset_frames - delta;
}

fn shift_target(target: &mut AnimatedPropertyTarget, delta: i32)
    requires
        match *old(target) {
            AnimatedPropertyTarget::Joined(f) => field_shift_fits(f, delta as int),
            AnimatedPropertyTarget::Separate(v) => forall|j: int|
                0 <= j < v@.len() ==> #[trigger] field_shift_fits(v@[j], delta as int),
        },
    ensures
        target_shifted(*old(target), *final(target), delta as int),
{
    match target {
        AnimatedPropertyTarget::Joined(field) => {
            shift_field(field, delta);
        },
        AnimatedPropertyTarget::Separate(fields) => {
            let ghost orig = fields@;
            let n = fields.len();
            let mut j: usize = 0;
            while j < n
                invariant
                    n == orig.len(),
                    fields@.len() == n,
                    j <= n,
                    forall|i: int| 0 <= i < n ==> #[trigger] field_shift_fits(orig[i], delta as int),
                    forall|i: int| 0 <= i < j ==> #[trigger] field_shifted(orig[i], fields@[i], delta as int),
                    forall|i: int| j <= i < n ==> #[trigger] fields@[i] == orig[i],
                decreases n - j,
            {
                shift_field(&mut fields[j], delta);
                j = j + 1;
            }
        },
    }
}

fn shift_source(src: &mut ClipSource, delta: i32)
    requires
        source_shift_fits(*old(src), delta as int),
    ensures
        source_shifted(*old(src), *final(src), delta as int),
{
    match src {
        ClipSource::Generator => {},
        ClipSource::Animation(animation) => {
            let ghost orig = animation.properties@;
            let ghost orig_target = animation.target_clip;
            let n = animation.properties.len();
            let mut i: usize = 0;
            while i < n
                invariant
                    n == orig.len(),
                    animation.properties@.len() == n,
                    animation.target_clip == orig_target,
                    i <= n,
                    forall|k: int|
                        0 <= k < n ==> match #[trigger] orig[k].target {
                            AnimatedPropertyTarget::Joined(f) => field_shift_fits(f, delta as int),
                            AnimatedPropertyTarget::Separate(v) => forall|j: int|
                                0 <= j < v@.len() ==> #[trigger] field_shift_fits(v@[j], delta as int),
                        },
                    forall|k: int|
                        0 <= k < i ==> #[trigger] property_shifted(
                            orig[k],
                            animation.properties@[k],
                            delta as int,
                        ),
                    forall|k: int| i <= k < n ==> #[trigger] animation.properties@[k] == orig[k],
                decreases n - i,
            {
                let ghost before = animation.properties@;
                shift_target(&mut animation.properties[i].target, delta);
                proof {
                    assert(animation.properties@.len() == n);
                    assert forall|k: int| 0 <= k < n && k != i implies #[trigger] animation.properties@[k]
                        == before[k] by {}
                    assert(animation.properties@[i as int].group_index == before[i as int].group_index);
                    assert(animation.properties@[i as int].property_index == before[i as int].property_index);
                    assert(animation.properties@[i as int].is_collapsed == before[i as int].is_collapsed);
                    assert(target_shifted(orig[i as int].target, animation.properties@[i as int].target, delta as int));
                    assert(property_shifted(orig[i as int], animation.properties@[i as int], delta as int));
                    assert forall|k: int| 0 <= k < i + 1 implies #[trigger] property_shifted(
                        orig[k],
                        animation.properties@[k],
                        delta as int,
                    ) by {
                        if k < i {
                            assert(animation.properties@[k] == before[k]);
                            assert(property_shifted(orig[k], before[k], delta as int));
                        }
                    }
                }
                i = i + 1;
            }
        },
    }
}

/// Whether every selected clip can have its start moved by `shift` frames (later when `shift`
/// is positive) while its end stays and it keeps at least `min_duration` frames.
pub open spec fn can_resize_left(t: Timeline, shift: int, min_duration: int) -> bool {
    forall|k: int, i: int|
        0 <= k < t.tracks@.len() && 0 <= i < t.tracks@[k].clips@.len()
            && #[trigger] t.tracks@[k].clips@[i].is_selected ==> if shift > 0 {
            shift + min_duration <= t.tracks@[k].clips@[i].duration_frames
        } else {
            -shift <= t.tracks@[k].clips@[i].offset_frames
        }
}

/// `b` is clip `a` with its start moved by `shift` frames, its end kept, and its animation
/// curves moved back by `shift` so that they stay where they were in time.
pub open spec fn resized_left(a: Clip, b: Clip, shift: int) -> bool {
    &&& b == Clip {
        offset_frames: (a.offset_frames + shift) as u32,
        duration_frames: (a.duration_frames - shift) as u32,
        source: b.source,
        ..a
    }
    &&& source_shifted(a.source, b.source, shift)
}

/// Each track keeps its clips in order; `f` says what becomes of each clip.
pub open spec fn same_shape(a: Timeline, b: Timeline) -> bool {
    &&& b.tracks@.len() == a.tracks@.len()
    &&& forall|k: int|
        0 <= k < a.tracks@.len() ==> #[trigger] b.tracks@[k].clips@.len() == a.tracks@[k].clips@.len()
}

/// Drags the start of every selected clip to `frame_offset` frames from where the drag began
/// (the editor remembers how far it has already moved them). Nothing changes unless every
/// selected clip can take the move; then the drag offset becomes `frame_offset`.
pub fn resize_selected_clips_left(
    timeline: &mut Timeline,
    editor_state: &mut EditorState,
    frame_offset: i32,
    min_duration: u32,
)
    requires
        timeline_fits(*old(timeline)),
        i32::MIN < frame_offset - old(editor_state).drag_offset <= i32::MAX,
        forall|k: int, i: int|
            0 <= k < old(timeline).tracks@.len() && 0 <= i < old(timeline).tracks@[k].clips@.len()
                && #[trigger] old(timeline).tracks@[k].clips@[i].is_selected ==> {
                &&& frame_offset - old(editor_state).drag_offset > 0 ==> frame_offset - old(
                    editor_state,
                ).drag_offset + min_duration <= u32::MAX
                &&& source_shift_fits(
                    old(timeline).tracks@[k].clips@[i].source,
                    frame_offset - old(editor_state).drag_offset,
                )
            },
    ensures
        ({
            let shift = frame_offset - old(editor_state).drag_offset;
            let o = *old(timeline);
            let f = *final(timeline);
            if can_resize_left(o, shift, min_duration as int) {
                &&& *final(editor_state) == (EditorState { drag_offset: frame_offset, ..*old(editor_state) })
                &&& same_shape(o, f)
                &&& timeline_fits(f)
                &&& forall|k: int, i: int|
                    0 <= k < o.tracks@.len() && 0 <= i < o.tracks@[k].clips@.len() ==> if o.tracks@[k].clips@[i].is_selected {
                        &&& resized_left(o.tracks@[k].clips@[i], #[trigger] f.tracks@[k].clips@[i], shift)
                        &&& start_of(f.tracks@[k].clips@, i) == start_of(o.tracks@[k].clips@, i) + shift
                        &&& end_of(f.tracks@[k].clips@, i) == end_of(o.tracks@[k].clips@, i)
                    } else {
                        &&& f.tracks@[k].clips@[i] == o.tracks@[k].clips@[i]
                        &&& start_of(f.tracks@[k].clips@, i) == start_of(o.tracks@[k].clips@, i)
                    }
            } else {
                &&& f == o
                &&& *final(editor_state) == *old(editor_state)
            }
        }),
{
    let real_offset = frame_offset - editor_state.drag_offset;
    let ghost o = *timeline;
    // Make sure there is room to resize every selected clip.
    let n = timeline.tracks.len();
    let mut can_resize = true;
    let mut k: usize = 0;
    while k < n && can_resize
        invariant
            *timeline == o,
            n == o.tracks@.len(),
            k <= n,
            forall|kk: int, i: int|
                0 <= kk < o.tracks@.len() && 0 <= i < o.tracks@[kk].clips@.len()
                    && #[trigger] o.tracks@[kk].clips@[i].is_selected ==> (real_offset > 0 ==> real_offset
                    + min_duration <= u32::MAX),
            can_resize ==> forall|kk: int, i: int|
                0 <= kk < k && 0 <= i < o.tracks@[kk].clips@.len()
                    && #[trigger] o.tracks@[kk].clips@[i].is_selected ==> if real_offset > 0 {
                    real_offset + min_duration <= o.tracks@[kk].clips@[i].duration_frames
                } else {
                    -real_offset <= o.tracks@[kk].clips@[i].offset_frames
                },
            !can_resize ==> !can_resize_left(o, real_offset as int, min_duration as int),
            i32::MIN < real_offset,
        decreases n - k,
    {
        let m = timeline.tracks[k].clips.len();
        let mut i: usize = 0;
        while i < m && can_resize
            invariant
                *timeline == o,
                n == o.tracks@.len(),
                k < n,
                m == o.tracks@[k as int].clips@.len(),
                i <= m,
                forall|kk: int, ii: int|
                    0 <= kk < o.tracks@.len() && 0 <= ii < o.tracks@[kk].clips@.len()
                        && #[trigger] o.tracks@[kk].clips@[ii].is_selected ==> (real_offset > 0
                        ==> real_offset + min_duration <= u32::MAX),
                can_resize ==> forall|kk: int, ii: int|
                    ((0 <= kk < k && 0 <= ii < o.tracks@[kk].clips@.len()) || (kk == k && 0 <= ii < i))
                        && #[trigger] o.tracks@[kk].clips@[ii].is_selected ==> if real_offset > 0 {
                        real_offset + min_duration <= o.tracks@[kk].clips@[ii].duration_frames
                    } else {
                        -real_offset <= o.tracks@[kk].clips@[ii].offset_frames
                    },
                !can_resize ==> !can_resize_left(o, real_offset as int, min_duration as int),
                i32::MIN < real_offset,
            decreases m - i,
        {
            let clip = &timeline.tracks[k].clips[i];
            if clip.is_selected {
                let ok = if real_offset > 0 {
                    (real_offset as u32) + min_duration <= clip.duration_frames
                } else {
                    (-real_offset) as u32 <= clip.offset_frames
                };
                if !ok {
                    can_resize = false;
                    proof {
                        assert(o.tracks@[k as int].clips@[i as int].is_selected);
                    }
                }
            }
            i = i + 1;
        }
        k = k + 1;
    }
    if !can_resize {
        return;
    }
    proof {
        assert(can_resize_left(o, real_offset as int, min_duration as int));
    }
    let mut k: usize = 0;
    while k < n
        invariant
            n == o.tracks@.len(),
            timeline.tracks@.len() == n,
            k <= n,
            timeline_fits(o),
            can_resize_left(o, real_offset as int, min_duration as int),
            i32::MIN < real_offset,
            forall|kk: int, i: int|
                0 <= kk < o.tracks@.len() && 0 <= i < o.tracks@[kk].clips@.len()
                    && #[trigger] o.tracks@[kk].clips@[i].is_selected ==> source_shift_fits(
                    o.tracks@[kk].clips@[i].source,
                    real_offset as int,
                ),
            forall|kk: int| k <= kk < n ==> #[trigger] timeline.tracks@[kk] == o.tracks@[kk],
            forall|kk: int|
                0 <= kk < k ==> #[trigger] timeline.tracks@[kk].clips@.len() == o.tracks@[kk].clips@.len(),
            forall|kk: int, i: int|
                0 <= kk < k && 0 <= i < o.tracks@[kk].clips@.len() ==> if o.tracks@[kk].clips@[i].is_selected {
                    resized_left(o.tracks@[kk].clips@[i], #[trigger] timeline.tracks@[kk].clips@[i], real_offset as int)
                } else {
                    #[trigger] timeline.tracks@[kk].clips@[i] == o.tracks@[kk].clips@[i]
                },
        decreases n - k,
    {
        let m = timeline.tracks[k].clips.len();
        let mut i: usize = 0;
        while i < m
            invariant
                n == o.tracks@.len(),
                timeline.tracks@.len() == n,
                k < n,
                m == o.tracks@[k as int].clips@.len(),
                timeline.tracks@[k as int].clips@.len() == m,
                i <= m,
                timeline_fits(o),
                can_resize_left(o, real_offset as int, min_duration as int),
                i32::MIN < real_offset,
                forall|kk: int, ii: int|
                    0 <= kk < o.tracks@.len() && 0 <= ii < o.tracks@[kk].clips@.len()
                        && #[trigger] o.tracks@[kk].clips@[ii].is_selected ==> source_shift_fits(
                        o.tracks@[kk].clips@[ii].source,
                        real_offset as int,
                    ),
                forall|kk: int| k < kk < n ==> #[trigger] timeline.tracks@[kk] == o.tracks@[kk],
                forall|kk: int|
                    0 <= kk < k ==> #[trigger] timeline.tracks@[kk].clips@.len() == o.tracks@[kk].clips@.len(),
                forall|kk: int, ii: int|
                    ((0 <= kk < k && 0 <= ii < o.tracks@[kk].clips@.len()) || (kk == k && 0 <= ii < i))
                        ==> if o.tracks@[kk].clips@[ii].is_selected {
                        resized_left(o.tracks@[kk].clips@[ii], #[trigger] timeline.tracks@[kk].clips@[ii], real_offset as int)
                    } else {
                        #[trigger] timeline.tracks@[kk].clips@[ii] == o.tracks@[kk].clips@[ii]
                    },
                forall|ii: int| i <= ii < m ==> #[trigger] timeline.tracks@[k as int].clips@[ii] == o.tracks@[k as int].clips@[ii],
            decreases m - i,
        {
            if timeline.tracks[k].clips[i].is_selected {
                proof {
                    assert(o.tracks@[k as int].clips@[i as int].is_selected);
                    assert(track_fits(o.tracks@[k as int].clips@));
                    lemma_clip_in_track(o.tracks@[k as int].clips@, i as int);
                }
                let clip = &mut timeline.tracks[k].clips[i];
                if real_offset > 0 {
                    clip.duration_frames = clip.duration_frames - real_offset as u32;
                    clip.offset_frames = clip.offset_frames + real_offset as u32;
                } else {
                    clip.duration_frames = clip.duration_frames + (-real_offset) as u32;
                    clip.offset_frames = clip.offset_frames - (-real_offset) as u32;
                }
                shift_source(&mut clip.source, real_offset);
            }
            i = i + 1;
        }
        k = k + 1;
    }
    editor_state.drag_offset = frame_offset;
    proof {
        let f = *timeline;
        assert forall|kk: int| 0 <= kk < n implies #[trigger] track_fits(f.tracks@[kk].clips@) by {
            lemma_resized_left_track(o.tracks@[kk].clips@, f.tracks@[kk].clips@, real_offset as int);
        }
        assert forall|kk: int, i: int|
            0 <= kk < n && 0 <= i < o.tracks@[kk].clips@.len() implies #[trigger] start_of(
            f.tracks@[kk].clips@,
            i,
        ) == start_of(o.tracks@[kk].clips@, i) + if o.tracks@[kk].clips@[i].is_selected {
            real_offset as int
        } else {
            0
        } && end_of(f.tracks@[kk].clips@, i) == end_of(o.tracks@[kk].clips@, i) by {
            lemma_resized_left_track(o.tracks@[kk].clips@, f.tracks@[kk].clips@, real_offset as int);
        }
    }
}

/// Whether every selected clip can have its end moved by `shift` frames: growing, it must not
/// run into the next clip; shrinking, it must keep at least `min_duration` frames.
pub open spec fn can_resize_right(t: Timeline, shift: int, min_duration: int) -> bool {
    forall|k: int, i: int|
        0 <= k < t.tracks@.len() && 0 <= i < t.tracks@[k].clips@.len()
            && #[trigger] t.tracks@[k].clips@[i].is_selected ==> if shift > 0 {
            i + 1 < t.tracks@[k].clips@.len() ==> shift <= t.tracks@[k].clips@[i + 1].offset_frames
        } else {
            -shift + min_duration <= t.tracks@[k].clips@[i].duration_frames
        }
}

/// Clip `i` of `b` is clip `i` of `a` with `shift` more frames if it is selected, and its offset
/// reduced by `shift` if the clip before it is selected.
pub open spec fn resized_right_at(a: Seq<Clip>, b: Seq<Clip>, i: int, shift: int) -> bool {
    b[i] == Clip {
        offset_frames: (a[i].offset_frames - if i > 0 && a[i - 1].is_selected {
            shift
        } else {
            0
        }) as u32,
        duration_frames: (a[i].duration_frames + if a[i].is_selected {
            shift
        } else {
            0
        }) as u32,
        ..a[i]
    }
}

/// Drags the end of every selected clip to `frame_offset` frames from where the drag began.
/// Nothing changes unless every selected clip can take the move; then the clips after them
/// stay where they are, and the drag offset becomes `frame_offset`.
pub fn resize_selected_clips_right(
    timeline: &mut Timeline,
    editor_state: &mut EditorState,
    frame_offset: i32,
    min_duration: u32,
)
    requires
        timeline_fits(*old(timeline)),
        i32::MIN < frame_offset - old(editor_state).drag_offset <= i32::MAX,
        forall|k: int, i: int|
            0 <= k < old(timeline).tracks@.len() && 0 <= i < old(timeline).tracks@[k].clips@.len()
                && #[trigger] old(timeline).tracks@[k].clips@[i].is_selected ==> {
                &&& frame_offset - old(editor_state).drag_offset < 0 ==> old(editor_state).drag_offset
                    - frame_offset + min_duration <= u32::MAX
                &&& frame_offset - old(editor_state).drag_offset > 0 ==> old(timeline).tracks@[k].clips@[i].duration_frames
                    + frame_offset - old(editor_state).drag_offset <= u32::MAX
            },
    ensures
        ({
            let shift = frame_offset - old(editor_state).drag_offset;
            let o = *old(timeline);
            let f = *final(timeline);
            if can_resize_right(o, shift, min_duration as int) {
                &&& *final(editor_state) == (EditorState { drag_offset: frame_offset, ..*old(editor_state) })
                &&& same_shape(o, f)
                &&& forall|k: int, i: int|
                    0 <= k < o.tracks@.len() && 0 <= i < o.tracks@[k].clips@.len() ==> {
                        &&& resized_right_at(o.tracks@[k].clips@, f.tracks@[k].clips@, i, shift)
                        &&& #[trigger] start_of(f.tracks@[k].clips@, i) == start_of(o.tracks@[k].clips@, i)
                        &&& end_of(f.tracks@[k].clips@, i) == end_of(o.tracks@[k].clips@, i) + if o.tracks@[k].clips@[i].is_selected {
                            shift
                        } else {
                            0
                        }
                    }
            } else {
                &&& f == o
                &&& *final(editor_state) == *old(editor_state)
            }
        }),
{
    let real_offset = frame_offset - editor_state.drag_offset;
    let ghost o = *timeline;
    let n = timeline.tracks.len();
    let mut can_resize = true;
    let mut k: usize = 0;
    while k < n && can_resize
        invariant
            *timeline == o,
            n == o.tracks@.len(),
            k <= n,
            i32::MIN < real_offset,
            forall|kk: int, i: int|
                0 <= kk < o.tracks@.len() && 0 <= i < o.tracks@[kk].clips@.len()
                    && #[trigger] o.tracks@[kk].clips@[i].is_selected ==> (real_offset < 0 ==> -real_offset
                    + min_duration <= u32::MAX),
            can_resize ==> forall|kk: int, i: int|
                0 <= kk < k && 0 <= i < o.tracks@[kk].clips@.len()
                    && #[trigger] o.tracks@[kk].clips@[i].is_selected ==> if real_offset > 0 {
                    i + 1 < o.tracks@[kk].clips@.len() ==> real_offset <= o.tracks@[kk].clips@[i + 1].offset_frames
                } else {
                    -real_offset + min_duration <= o.tracks@[kk].clips@[i].duration_frames
                },
            !can_resize ==> !can_resize_right(o, real_offset as int, min_duration as int),
        decreases n - k,
    {
        let m = timeline.tracks[k].clips.len();
        let mut i: usize = 0;
        while i < m && can_resize
            invariant
                *timeline == o,
                n == o.tracks@.len(),
                k < n,
                m == o.tracks@[k as int].clips@.len(),
                i <= m,
                i32::MIN < real_offset,
                forall|kk: int, ii: int|
                    0 <= kk < o.tracks@.len() && 0 <= ii < o.tracks@[kk].clips@.len()
                        && #[trigger] o.tracks@[kk].clips@[ii].is_selected ==> (real_offset < 0
                        ==> -real_offset + min_duration <= u32::MAX),
                can_resize ==> forall|kk: int, ii: int|
                    ((0 <= kk < k && 0 <= ii < o.tracks@[kk].clips@.len()) || (kk == k && 0 <= ii < i))
                        && #[trigger] o.tracks@[kk].clips@[ii].is_selected ==> if real_offset > 0 {
                        ii + 1 < o.tracks@[kk].clips@.len() ==> real_offset <= o.tracks@[kk].clips@[ii + 1].offset_frames
                    } else {
                        -real_offset + min_duration <= o.tracks@[kk].clips@[ii].duration_frames
                    },
                !can_resize ==> !can_resize_right(o, real_offset as int, min_duration as int),
            decreases m - i,
        {
            if timeline.tracks[k].clips[i].is_selected {
                let ok = if real_offset > 0 {
                    if i + 1 < m {
                        real_offset as u32 <= timeline.tracks[k].clips[i + 1].offset_frames
                    } else {
                        true
                    }
                } else {
                    ((-real_offset) as u32) + min_duration <= timeline.tracks[k].clips[i].duration_frames
                };
                if !ok {
                    can_resize = false;
                    proof {
                        assert(o.tracks@[k as int].clips@[i as int].is_selected);
                    }
                }
            }
            i = i + 1;
        }
        k = k + 1;
    }
    if !can_resize {
        return;
    }
    let mut k: usize = 0;
    while k < n
        invariant
            n == o.tracks@.len(),
            timeline.tracks@.len() == n,
            k <= n,
            timeline_fits(o),
            can_resize_right(o, real_offset as int, min_duration as int),
            i32::MIN < real_offset,
            forall|kk: int, i: int|
                0 <= kk < o.tracks@.len() && 0 <= i < o.tracks@[kk].clips@.len()
                    && #[trigger] o.tracks@[kk].clips@[i].is_selected ==> (real_offset > 0 ==> o.tracks@[kk].clips@[i].duration_frames
                    + real_offset <= u32::MAX),
            forall|kk: int| k <= kk < n ==> #[trigger] timeline.tracks@[kk] == o.tracks@[kk],
            forall|kk: int|
                0 <= kk < k ==> #[trigger] timeline.tracks@[kk].clips@.len() == o.tracks@[kk].clips@.len(),
            forall|kk: int, i: int|
                0 <= kk < k && 0 <= i < o.tracks@[kk].clips@.len() ==> #[trigger] resized_right_at(
                    o.tracks@[kk].clips@,
                    timeline.tracks@[kk].clips@,
                    i,
                    real_offset as int,
                ),
        decreases n - k,
    {
        let m = timeline.tracks[k].clips.len();
        let ghost a = o.tracks@[k as int].clips@;
        proof {
            assert(track_fits(a));
        }
        let mut i: usize = 0;
        while i < m
            invariant
                n == o.tracks@.len(),
                timeline.tracks@.len() == n,
                k < n,
                a == o.tracks@[k as int].clips@,
                m == a.len(),
                timeline.tracks@[k as int].clips@.len() == m,
                i <= m,
                track_fits(a),
                can_resize_right(o, real_offset as int, min_duration as int),
                i32::MIN < real_offset,
                forall|kk: int, ii: int|
                    0 <= kk < o.tracks@.len() && 0 <= ii < o.tracks@[kk].clips@.len()
                        && #[trigger] o.tracks@[kk].clips@[ii].is_selected ==> (real_offset > 0 ==> o.tracks@[kk].clips@[ii].duration_frames
                        + real_offset <= u32::MAX),
                forall|kk: int| k < kk < n ==> #[trigger] timeline.tracks@[kk] == o.tracks@[kk],
                forall|kk: int|
                    0 <= kk < k ==> #[trigger] timeline.tracks@[kk].clips@.len() == o.tracks@[kk].clips@.len(),
                forall|kk: int, ii: int|
                    0 <= kk < k && 0 <= ii < o.tracks@[kk].clips@.len() ==> #[trigger] resized_right_at(
                        o.tracks@[kk].clips@,
                        timeline.tracks@[kk].clips@,
                        ii,
                        real_offset as int,
                    ),
                forall|ii: int| 0 <= ii < i ==> #[trigger] resized_right_at(a, timeline.tracks@[k as int].clips@, ii, real_offset as int),
                i < m ==> timeline.tracks@[k as int].clips@[i as int] == (Clip {
                    offset_frames: (a[i as int].offset_frames - if i > 0 && a[i - 1].is_selected {
                        real_offset as int
                    } else {
                        0
                    }) as u32,
                    ..a[i as int]
                }),
                i < m && i > 0 && a[i - 1].is_selected ==> 0 <= a[i as int].offset_frames - real_offset
                    <= u32::MAX,
                forall|ii: int| i < ii < m ==> #[trigger] timeline.tracks@[k as int].clips@[ii] == a[ii],
            decreases m - i,
        {
            proof {
                lemma_clip_in_track(a, i as int);
                if i + 1 < m {
                    lemma_clips_ordered(a, i as int, i + 1);
                    lemma_next_offset_bound(a, i as int);
                }
            }
            let ghost before = timeline.tracks@[k as int].clips@;
            if timeline.tracks[k].clips[i].is_selected {
                proof {
                    assert(a[i as int].is_selected);
                }
                if real_offset > 0 {
                    let d = timeline.tracks[k].clips[i].duration_frames + real_offset as u32;
                    timeline.tracks[k].clips[i].duration_frames = d;
                } else {
                    let d = timeline.tracks[k].clips[i].duration_frames - (-real_offset) as u32;
                    timeline.tracks[k].clips[i].duration_frames = d;
                }
                if i + 1 < m {
                    if real_offset > 0 {
                        let off = timeline.tracks[k].clips[i + 1].offset_frames - real_offset as u32;
                        timeline.tracks[k].clips[i + 1].offset_frames = off;
                    } else {
                        let off = timeline.tracks[k].clips[i + 1].offset_frames + (-real_offset) as u32;
                        timeline.tracks[k].clips[i + 1].offset_frames = off;
                    }
                }
            }
            proof {
                let b = timeline.tracks@[k as int].clips@;
                assert forall|ii: int| 0 <= ii < i + 1 implies #[trigger] resized_right_at(a, b, ii, real_offset as int) by {
                    if ii < i {
                        assert(b[ii] == before[ii]);
                        assert(resized_right_at(a, before, ii, real_offset as int));
                    }
                }
                if i + 1 < m && a[i as int].is_selected {
                    if real_offset > 0 {
                        assert(real_offset <= a[i + 1].offset_frames);
                    } else {
                        assert(-real_offset + min_duration <= a[i as int].duration_frames);
                    }
                }
            }
            i = i + 1;
        }
        proof {
            assert forall|kk: int, ii: int|
                0 <= kk < k + 1 && 0 <= ii < o.tracks@[kk].clips@.len() implies #[trigger] resized_right_at(
                    o.tracks@[kk].clips@,
                    timeline.tracks@[kk].clips@,
                    ii,
                    real_offset as int,
                ) by {}
        }
        k = k + 1;
    }
    editor_state.drag_offset = frame_offset;
    proof {
        let f = *timeline;
        assert forall|kk: int, i: int|
            0 <= kk < n && 0 <= i < o.tracks@[kk].clips@.len() implies #[trigger] start_of(
            f.tracks@[kk].clips@,
            i,
        ) == start_of(o.tracks@[kk].clips@, i) && end_of(f.tracks@[kk].clips@, i) == end_of(
            o.tracks@[kk].clips@,
            i,
        ) + if o.tracks@[kk].clips@[i].is_selected {
            real_offset as int
        } else {
            0
        } by {
            assert(track_fits(o.tracks@[kk].clips@));
            let a = o.tracks@[kk].clips@;
            assert forall|j: int|
                0 <= j < a.len() && #[trigger] a[j].is_selected implies if real_offset > 0 {
                    &&& j + 1 < a.len() ==> real_offset <= a[j + 1].offset_frames
                    &&& a[j].duration_frames + real_offset <= u32::MAX
                } else {
                    -real_offset <= a[j].duration_frames
                } by {
                assert(o.tracks@[kk].clips@[j].is_selected);
            }
            lemma_resized_right_track(o.tracks@[kk].clips@, f.tracks@[kk].clips@, real_offset as int, i + 1);
            lemma_clip_in_track(o.tracks@[kk].clips@, i);
            assert(resized_right_at(o.tracks@[kk].clips@, f.tracks@[kk].clips@, i, real_offset as int));
        }
    }
}

/// Removes the empty tracks before the first and after the last track with clips, keeping one
/// empty track when there are no clips at all.
pub fn trim_empty_tracks(timeline: &mut Timeline)
    ensures
        ({
            let s = old(timeline).tracks@;
            if forall|i: int| 0 <= i < s.len() ==> #[trigger] s[i].clips@.len() == 0 {
                &&& final(timeline).tracks@.len() == 1
                &&& final(timeline).tracks@[0].clips@.len() == 0
            } else {
                exists|a: int, b: int|
                    {
                        &&& 0 <= a < b <= s.len()
                        &&& forall|i: int| 0 <= i < a ==> #[trigger] s[i].clips@.len() == 0
                        &&& s[a].clips@.len() != 0
                        &&& s[b - 1].clips@.len() != 0
                        &&& forall|i: int| b <= i < s.len() ==> #[trigger] s[i].clips@.len() == 0
                        &&& final(timeline).tracks@ == s.subrange(a, b)
                    }
            }
        }),
{
    let ghost s = timeline.tracks@;
    let n = timeline.tracks.len();
    let mut start_empty_tracks: usize = 0;
    while start_empty_tracks < n && timeline.tracks[start_empty_tracks].clips.is_empty()
        invariant
            timeline.tracks@ == s,
            n == s.len(),
            start_empty_tracks <= n,
            forall|i: int| 0 <= i < start_empty_tracks ==> #[trigger] s[i].clips@.len() == 0,
        decreases n - start_empty_tracks,
    {
        start_empty_tracks = start_empty_tracks + 1;
    }
    if start_empty_tracks == n {
        timeline.tracks.clear();
        timeline.tracks.push(Track::default());
        return;
    }
    let a = start_empty_tracks;
    let mut b: usize = n;
    while b > a + 1 && timeline.tracks[b - 1].clips.is_empty()
        invariant
            timeline.tracks@ == s,
            n == s.len(),
            a < b <= n,
            s[a as int].clips@.len() != 0,
            forall|i: int| b <= i < n ==> #[trigger] s[i].clips@.len() == 0,
        decreases b,
    {
        b = b - 1;
    }
    let mut kept = timeline.tracks.split_off(a);
    kept.truncate(b - a);
    timeline.tracks = kept;
    proof {
        assert(timeline.tracks@ =~= s.subrange(a as int, b as int));
        assert(!(forall|i: int| 0 <= i < s.len() ==> #[trigger] s[i].clips@.len() == 0)) by {
            assert(s[a as int].clips@.len() != 0);
        }
    }
}

/// The (start frame, clip) entries that a list of clips waiting to be placed stands for.
pub open spec fn as_placed(v: Seq<(u32, Clip)>) -> Seq<Placed> {
    v.map_values(|e: (u32, Clip)| (e.0 as int, placed(e.1)))
}

/// Takes every selected clip off the track, recording for each the frame it is to start at
/// once moved by `shift`; the other clips stay where they are.
fn take_selected(track: &mut Track, shift: i32) -> (moved: Vec<(u32, Clip)>)
    requires
        track_fits(old(track).clips@),
        forall|i: int|
            0 <= i < old(track).clips@.len() && #[trigger] old(track).clips@[i].is_selected ==> 0
                <= start_of(old(track).clips@, i) + shift <= i32::MAX,
        end_at(old(track).clips@, old(track).clips@.len() as int) <= i32::MAX,
    ensures
        track_fits(final(track).clips@),
        placements(final(track).clips@) == unselected_prefix(
            placements(old(track).clips@),
            old(track).clips@.len() as int,
        ),
        as_placed(moved@) == moved_prefix(
            placements(old(track).clips@),
            old(track).clips@.len() as int,
            shift as int,
        ),
{
    let ghost a = track.clips@;
    let ghost pl = placements(a);
    let ghost n0 = a.len() as int;
    let mut move_clips: Vec<(u32, Clip)> = Vec::new();
    let mut last_clip_end: u32 = 0;
    let mut index: usize = 0;
    let ghost mut p: int = 0;
    proof {
        assert(placements(track.clips@) =~= unselected_prefix(pl, 0) + pl.subrange(0, n0));
        assert(as_placed(move_clips@) =~= moved_prefix(pl, 0, shift as int));
    }
    while index < track.clips.len()
        invariant
            pl == placements(a),
            n0 == a.len(),
            forall|i: int|
                0 <= i < a.len() && #[trigger] a[i].is_selected ==> 0 <= start_of(a, i) + shift
                    <= i32::MAX,
            end_at(a, n0) <= i32::MAX,
            track_fits(a),
            0 <= p <= n0,
            index == unselected_prefix(pl, p).len(),
            track.clips@.len() == index + (n0 - p),
            placements(track.clips@) == unselected_prefix(pl, p) + pl.subrange(p, n0),
            track_fits(track.clips@),
            last_clip_end == end_at(track.clips@, index as int),
            as_placed(move_clips@) == moved_prefix(pl, p, shift as int),
        ensures
            p == n0,
            placements(track.clips@) == unselected_prefix(pl, n0),
            track_fits(track.clips@),
            as_placed(move_clips@) == moved_prefix(pl, n0, shift as int),
        decreases n0 - p,
    {
        let ghost t = track.clips@;
        proof {
            assert(placements(t).len() == t.len());
            assert(t.len() == index + (n0 - p));
            assert(p < n0);
            lemma_clip_in_track(t, index as int);
            assert(placements(t)[index as int] == pl[p]);
            assert(start_of(t, index as int) == start_of(a, p));
            lemma_clip_in_track(a, p);
        }
        let clip_start_time = last_clip_end + track.clips[index].offset_frames;
        if track.clips[index].is_selected {
            proof {
                assert(a[p].is_selected);
            }
            let new_start_time = (clip_start_time as i32 + shift) as u32;
            let removed = remove_clip(track, index);
            let ghost before = move_clips@;
            move_clips.push((new_start_time, removed));
            proof {
                assert(placements(track.clips@) =~= unselected_prefix(pl, p + 1) + pl.subrange(p + 1, n0));
                assert(as_placed(move_clips@) =~= as_placed(before).push(
                    (new_start_time as int, placed(removed)),
                ));
                assert(placed(removed) == pl[p].1);
                p = p + 1;
            }
            proof {
                let t2 = track.clips@;
                assert(placements(t2).len() == t2.len());
                if index > 0 {
                    let q = index - 1;
                    assert(placements(t2)[q as int] == placements(t)[q as int]);
                    assert(end_at(t2, index as int) == end_of(t2, q as int));
                    assert(end_at(t, index as int) == end_of(t, q as int));
                }
                assert(placements(t2).len() == unselected_prefix(pl, p).len() + (n0 - p));
            }
        } else {
            let d = track.clips[index].duration_frames;
            last_clip_end = clip_start_time + d;
            index = index + 1;
            proof {
                assert(unselected_prefix(pl, p + 1) == unselected_prefix(pl, p).push(pl[p]));
                assert(placements(track.clips@) =~= unselected_prefix(pl, p + 1) + pl.subrange(p + 1, n0));
                p = p + 1;
            }
        }
    }
    proof {
        assert(pl.subrange(n0, n0) =~= Seq::<Placed>::empty());
        assert(placements(track.clips@) =~= unselected_prefix(pl, n0));
    }
    move_clips
}

/// Takes every selected clip off the track; the other clips stay where they are.
pub fn drop_selected(track: &mut Track)
    requires
        track_fits(old(track).clips@),
    ensures
        track_fits(final(track).clips@),
        placements(final(track).clips@) == unselected_prefix(
            placements(old(track).clips@),
            old(track).clips@.len() as int,
        ),
{
    let ghost a = track.clips@;
    let ghost pl = placements(a);
    let ghost n0 = a.len() as int;
    let mut index: usize = 0;
    let ghost mut p: int = 0;
    proof {
        assert(placements(track.clips@) =~= unselected_prefix(pl, 0) + pl.subrange(0, n0));
    }
    while index < track.clips.len()
        invariant
            pl == placements(a),
            n0 == a.len(),
            track_fits(a),
            0 <= p <= n0,
            index == unselected_prefix(pl, p).len(),
            track.clips@.len() == index + (n0 - p),
            placements(track.clips@) == unselected_prefix(pl, p) + pl.subrange(p, n0),
            track_fits(track.clips@),
        ensures
            p == n0,
            placements(track.clips@) == unselected_prefix(pl, n0),
            track_fits(track.clips@),
        decreases n0 - p,
    {
        let ghost t = track.clips@;
        proof {
            assert(placements(t).len() == t.len());
            assert(p < n0);
            assert(placements(t)[index as int] == pl[p]);
        }
        if track.clips[index].is_selected {
            proof {
                assert(a[p].is_selected);
            }
            remove_clip(track, index);
            proof {
                assert(placements(track.clips@) =~= unselected_prefix(pl, p + 1) + pl.subrange(p + 1, n0));
                p = p + 1;
            }
        } else {
            index = index + 1;
            proof {
                assert(unselected_prefix(pl, p + 1) == unselected_prefix(pl, p).push(pl[p]));
                assert(placements(track.clips@) =~= unselected_prefix(pl, p + 1) + pl.subrange(p + 1, n0));
                p = p + 1;
            }
        }
    }
    proof {
        assert(pl.subrange(n0, n0) =~= Seq::<Placed>::empty());
        assert(placements(track.clips@) =~= unselected_prefix(pl, n0));
    }
}

/// Inserts each clip of `moved` at its recorded start frame, in order. The caller vouches that
/// no clip is in the way: the moved clips leave room for every clip of the track and for each
/// other.
fn put_back(track: &mut Track, moved: Vec<(u32, Clip)>)
    requires
        track_fits(old(track).clips@),
        forall|a: int, b: int|
            0 <= a < b < moved@.len() ==> #[trigger] as_placed(moved@)[a].0 + as_placed(moved@)[a].1.duration_frames
                <= #[trigger] as_placed(moved@)[b].0,
        forall|a: int, b: int|
            #![trigger as_placed(moved@)[a], as_placed(moved@)[b]]
            0 <= a < b < moved@.len() && as_placed(moved@)[a].1.duration_frames == 0 && as_placed(moved@)[a].0
                == as_placed(moved@)[b].0 ==> as_placed(moved@)[b].1.duration_frames == 0,
        forall|a: int| 0 <= a < moved@.len() ==> #[trigger] moved@[a].0 + moved@[a].1.duration_frames <= u32::MAX,
        forall|x: Placed, a: int|
            placements(old(track).clips@).contains(x) && 0 <= a < moved@.len() ==> #[trigger] compatible(
                x,
                #[trigger] moved@[a].0 as int,
                moved@[a].1.duration_frames as int,
            ),
    ensures
        track_fits(final(track).clips@),
        placements(final(track).clips@) == insert_all(placements(old(track).clips@), as_placed(moved@)),
{
    let ghost u = placements(track.clips@);
    let ghost m = as_placed(moved@);
    let ghost mv = moved@;
    assert(mv.len() == moved.len());
    let mut rest = moved;
    let mut j: usize = 0;
    proof {
        assert(m.take(0) =~= Seq::<Placed>::empty());
    }
    while rest.len() > 0
        invariant
            m == as_placed(mv),
            j <= mv.len(),
            mv.len() <= usize::MAX,
            rest@ == mv.subrange(j as int, mv.len() as int),
            track_fits(track.clips@),
            placements(track.clips@) == insert_all(u, m.take(j as int)),
            forall|a: int, b: int|
                0 <= a < b < mv.len() ==> #[trigger] m[a].0 + m[a].1.duration_frames <= #[trigger] m[b].0,
            forall|a: int, b: int|
                #![trigger m[a], m[b]]
                0 <= a < b < mv.len() && m[a].1.duration_frames == 0 && m[a].0 == m[b].0 ==> m[b].1.duration_frames
                    == 0,
            forall|a: int| 0 <= a < mv.len() ==> #[trigger] mv[a].0 + mv[a].1.duration_frames <= u32::MAX,
            forall|x: Placed, a: int|
                u.contains(x) && 0 <= a < mv.len() ==> #[trigger] compatible(
                    x,
                    #[trigger] mv[a].0 as int,
                    mv[a].1.duration_frames as int,
                ),
        decreases rest.len(),
    {
        let (pos, clip) = rest.remove(0);
        proof {
            assert(rest@.len() + j + 1 == mv.len());
            assert(mv[j as int] == (pos, clip));
            assert(m[j as int] == (pos as int, placed(clip)));
            let t = track.clips@;
            let pt = placements(t);
            assert forall|i: int| 0 <= i < t.len() implies compatible(
                pt[i],
                pos as int,
                clip.duration_frames as int,
            ) by {
                assert(pt.contains(pt[i]));
                lemma_insert_all_contains(u, m.take(j as int), pt[i]);
                if u.contains(pt[i]) {
                    assert(compatible(pt[i], mv[j as int].0 as int, mv[j as int].1.duration_frames as int));
                } else {
                    let a = choose|a: int| 0 <= a < m.take(j as int).len() && m.take(j as int)[a] == pt[i];
                    assert(m[a] == pt[i]);
                    assert(m[a].0 + m[a].1.duration_frames <= m[j as int].0);
                    if m[a].1.duration_frames == 0 && m[a].0 == m[j as int].0 {
                        assert(m[j as int].1.duration_frames == 0);
                    }
                }
            }
            assert forall|i: int| 0 <= i < t.len() && start_of(t, i) < pos implies end_of(t, i) <= pos by {
                assert(compatible(pt[i], pos as int, clip.duration_frames as int));
            }
            assert forall|i: int| 0 <= i < t.len() && pos <= start_of(t, i) implies pos + clip.duration_frames
                <= start_of(t, i) by {
                assert(compatible(pt[i], pos as int, clip.duration_frames as int));
            }
            lemma_insert_index_placements(t, pos as int, t.len() as int);
        }
        let ghost t0 = track.clips@;
        let res = insert_clip(track, clip, pos);
        match res {
            Ok(()) => {},
            Err(_) => {
                proof {
                    assert(false);
                }
            },
        }
        proof {
            assert(j < mv.len());
            let mj1 = m.take(j + 1);
            assert(mj1.drop_last() =~= m.take(j as int));
            assert(mj1.last() == m[j as int]);
            assert(placements(t0).len() == t0.len());
        }
        j = j + 1;
        proof {
            assert(rest@ =~= mv.subrange(j as int, mv.len() as int));
        }
    }
    proof {
        assert(j == mv.len());
        assert(m.take(j as int) =~= m);
    }
}

/// On every track, among the selected clips that start at the same frame, those that last no
/// frame come after those that last longer: put back in order, the selected clips then do not
/// run into each other.
pub open spec fn empty_selected_clips_last(t: Timeline) -> bool {
    forall|k: int| 0 <= k < t.tracks@.len() ==> selected_empty_clips_last(#[trigger] t.tracks@[k].clips@)
}

/// Whether every selected clip can be moved by `shift` frames: it must not start before
/// frame 0 nor run into an unselected clip of its track.
pub open spec fn can_move_selected(t: Timeline, shift: int) -> bool {
    forall|k: int, i: int|
        0 <= k < t.tracks@.len() && 0 <= i < t.tracks@[k].clips@.len()
            && #[trigger] t.tracks@[k].clips@[i].is_selected ==> {
            &&& start_of(t.tracks@[k].clips@, i) + shift >= 0
            &&& fits_on_track(
                t.tracks@[k].clips@,
                start_of(t.tracks@[k].clips@, i) + shift,
                t.tracks@[k].clips@[i].duration_frames as int,
                true,
            )
        }
}

/// The track after its selected clips are moved by `shift` frames: the other clips in place,
/// then each moved clip inserted, in track order, after every clip that starts before it.
pub open spec fn moved_track(clips: Seq<Clip>, shift: int) -> Seq<Placed> {
    insert_all(
        unselected_prefix(placements(clips), clips.len() as int),
        moved_prefix(placements(clips), clips.len() as int, shift),
    )
}

/// Hands out `remaining` values, each made by a call of `generator`.
#[verifier::reject_recursive_types(I)]
pub struct GenerateIter<I, F: Fn() -> I> {
    pub remaining: usize,
    pub generator: F,
}

impl<I, F: Fn() -> I> GenerateIter<I, F> {
    /// A source of `length` values made by `generator`.
    pub fn new(length: usize, generator: F) -> (g: Self)
        ensures
            g.remaining == length,
            g.generator == generator,
    {
        GenerateIter { remaining: length, generator }
    }

    /// How many values are left to hand out, as a lower and an upper bound.
    pub fn size_hint(&self) -> (r: (usize, Option<usize>))
        ensures
            r == (self.remaining, Some(self.remaining)),
    {
        (self.remaining, Some(self.remaining))
    }

    /// The next value: `None` once `remaining` values were handed out, else a new value of the
    /// generator.
    pub fn next(&mut self) -> (r: Option<I>)
        requires
            old(self).remaining > 0 ==> call_requires(old(self).generator, ()),
        ensures
            generate_step(*old(self), *final(self), r),
    {
        if self.remaining == 0 {
            None
        } else {
            self.remaining = self.remaining - 1;
            Some((self.generator)())
        }
    }
}

/// What one call of `next` does: the generator stays; with values left, one is handed out,
/// made by the generator, and one fewer is left; with none left, `None`.
pub open spec fn generate_step<I, F: Fn() -> I>(
    before: GenerateIter<I, F>,
    after: GenerateIter<I, F>,
    r: Option<I>,
) -> bool {
    &&& after.generator == before.generator
    &&& before.remaining == 0 ==> r is None && after.remaining == 0
    &&& before.remaining > 0 ==> after.remaining == before.remaining - 1
    &&& before.remaining > 0 ==> (r matches Some(v) && call_ensures(before.generator, (), v))
}

/// A source made for `n` values hands out exactly `n`: over any run of calls of `next`
/// (`states[k]` before call `k`, `results[k]` what it gave), call `k` gives a value made by the
/// generator when `k < n` and `None` after, and what is left counts down to 0.
pub proof fn law_generate_yields_count<I, F: Fn() -> I>(
    states: Seq<GenerateIter<I, F>>,
    results: Seq<Option<I>>,
)
    requires
        states.len() == results.len() + 1,
        forall|k: int| 0 <= k < results.len() ==> generate_step(#[trigger] states[k], states[k + 1], results[k]),
    ensures
        forall|k: int|
            0 <= k < results.len() ==> ((#[trigger] results[k]) is Some <==> k < states[0].remaining),
        forall|k: int|
            0 <= k < results.len() && k < states[0].remaining ==> call_ensures(
                states[0].generator,
                (),
                (#[trigger] results[k])->Some_0,
            ),
        states[results.len() as int].remaining == if results.len() < states[0].remaining {
            states[0].remaining - results.len()
        } else {
            0
        },
        states[results.len() as int].generator == states[0].generator,
    decreases results.len(),
{
    let m = results.len();
    if m > 0 {
        let st = states.take(m as int);
        let rs = results.take(m - 1);
        assert forall|k: int| 0 <= k < rs.len() implies generate_step(#[trigger] st[k], st[k + 1], rs[k]) by {
            assert(st[k] == states[k] && st[k + 1] == states[k + 1] && rs[k] == results[k]);
        }
        law_generate_yields_count(st, rs);
        assert(generate_step(states[m - 1], states[m as int], results[m - 1]));
        assert forall|k: int| 0 <= k < m implies ((#[trigger] results[k]) is Some <==> k < states[0].remaining) by {
            if k < m - 1 {
                assert(rs[k] == results[k]);
            }
        }
        assert forall|k: int|
            0 <= k < m && k < states[0].remaining implies call_ensures(
                states[0].generator,
                (),
                (#[trigger] results[k])->Some_0,
            ) by {
            if k < m - 1 {
                assert(rs[k] == results[k]);
            }
        }
    }
}

/// The entries of `p`, each selected clip moved by `shift` frames.
pub open spec fn shifted(p: Seq<Placed>, shift: int) -> Seq<Placed> {
    p.map_values(|x: Placed| if x.1.is_selected {
        (x.0 + shift, x.1)
    } else {
        x
    })
}

proof fn lemma_split_shifted(p: Seq<Placed>, n: int, shift: int)
    requires
        0 <= n <= p.len(),
    ensures
        unselected_prefix(p, n).to_multiset().add(moved_prefix(p, n, shift).to_multiset()) == shifted(
            p.take(n),
            shift,
        ).to_multiset(),
    decreases n,
{
    broadcast use vstd::seq_lib::group_seq_properties;
    broadcast use vstd::multiset::group_multiset_axioms;
    if n == 0 {
        assert(shifted(p.take(0), shift) =~= Seq::<Placed>::empty());
        assert(unselected_prefix(p, 0).to_multiset().add(moved_prefix(p, 0, shift).to_multiset()) =~= vstd::multiset::Multiset::empty());
    } else {
        lemma_split_shifted(p, n - 1, shift);
        let x = p[n - 1];
        let y = if x.1.is_selected {
            (x.0 + shift, x.1)
        } else {
            x
        };
        assert(shifted(p.take(n), shift) =~= shifted(p.take(n - 1), shift).push(y));
        vstd::seq_lib::lemma_multiset_commutative(shifted(p.take(n - 1), shift), seq![y]);
        assert(shifted(p.take(n - 1), shift).push(y) =~= shifted(p.take(n - 1), shift) + seq![y]);
        let u = unselected_prefix(p, n - 1);
        let m = moved_prefix(p, n - 1, shift);
        if x.1.is_selected {
            assert(m.push(y).to_multiset() =~= m.to_multiset().insert(y));
            assert(u.to_multiset().add(m.to_multiset().insert(y)) =~= u.to_multiset().add(m.to_multiset()).insert(y));
        } else {
            assert(u.push(y).to_multiset() =~= u.to_multiset().insert(y));
            assert(u.to_multiset().insert(y).add(m.to_multiset()) =~= u.to_multiset().add(m.to_multiset()).insert(y));
        }
        assert((shifted(p.take(n - 1), shift) + seq![y]).to_multiset() =~= shifted(p.take(n - 1), shift).to_multiset().insert(y));
    }
}

/// Moving the selected clips of a track keeps every clip of it: the moved track holds exactly
/// the clips of the old one, each selected clip starting `shift` frames later.
pub proof fn law_move_keeps_clips(clips: Seq<Clip>, shift: int)
    ensures
        moved_track(clips, shift).to_multiset() == shifted(placements(clips), shift).to_multiset(),
{
    let p = placements(clips);
    let n = clips.len() as int;
    lemma_insert_all_multiset(unselected_prefix(p, n), moved_prefix(p, n, shift));
    lemma_split_shifted(p, n, shift);
    assert(p.take(n) =~= p);
}

/// Drags the selected clips to `frame_offset` frames from where the drag began (the editor
/// remembers how far they have already moved). Nothing changes unless every selected clip can
/// take the move; then the drag offset becomes `frame_offset`.
pub fn move_selected_clips(timeline: &mut Timeline, editor_state: &mut EditorState, frame_offset: i32)
    requires
        timeline_fits(*old(timeline)),
        frames_fit_i32(*old(timeline)),
        frame_offset != old(editor_state).drag_offset && can_move_selected(
            *old(timeline),
            frame_offset - old(editor_state).drag_offset,
        ) ==> empty_selected_clips_last(*old(timeline)),
        i32::MIN < frame_offset - old(editor_state).drag_offset <= i32::MAX,
        forall|k: int, i: int|
            0 <= k < old(timeline).tracks@.len() && 0 <= i < old(timeline).tracks@[k].clips@.len()
                && #[trigger] old(timeline).tracks@[k].clips@[i].is_selected ==> start_of(
                old(timeline).tracks@[k].clips@,
                i,
            ) + frame_offset - old(editor_state).drag_offset <= i32::MAX,
    ensures
        ({
            let shift = frame_offset - old(editor_state).drag_offset;
            let o = *old(timeline);
            let f = *final(timeline);
            if shift != 0 && can_move_selected(o, shift) {
                &&& *final(editor_state) == (EditorState { drag_offset: frame_offset, ..*old(editor_state) })
                &&& f.tracks@.len() == o.tracks@.len()
                &&& timeline_fits(f)
                &&& forall|k: int|
                    0 <= k < o.tracks@.len() ==> #[trigger] placements(f.tracks@[k].clips@) == moved_track(
                        o.tracks@[k].clips@,
                        shift,
                    )
            } else {
                &&& f == o
                &&& *final(editor_state) == *old(editor_state)
            }
        }),
{
    let real_offset = frame_offset - editor_state.drag_offset;
    if real_offset == 0 {
        return;
    }
    let ghost o = *timeline;
    let n = timeline.tracks.len();
    // Make sure every selected clip can be moved by the offset.
    let mut can_move_clips = true;
    let mut k: usize = 0;
    while k < n && can_move_clips
        invariant
            *timeline == o,
            n == o.tracks@.len(),
            k <= n,
            timeline_fits(o),
            frames_fit_i32(o),
            i32::MIN < real_offset,
            forall|kk: int, i: int|
                0 <= kk < o.tracks@.len() && 0 <= i < o.tracks@[kk].clips@.len()
                    && #[trigger] o.tracks@[kk].clips@[i].is_selected ==> start_of(o.tracks@[kk].clips@, i)
                    + real_offset <= i32::MAX,
            can_move_clips ==> forall|kk: int, i: int|
                0 <= kk < k && 0 <= i < o.tracks@[kk].clips@.len()
                    && #[trigger] o.tracks@[kk].clips@[i].is_selected ==> {
                    &&& start_of(o.tracks@[kk].clips@, i) + real_offset >= 0
                    &&& fits_on_track(
                        o.tracks@[kk].clips@,
                        start_of(o.tracks@[kk].clips@, i) + real_offset,
                        o.tracks@[kk].clips@[i].duration_frames as int,
                        true,
                    )
                },
            !can_move_clips ==> !can_move_selected(o, real_offset as int),
        decreases n - k,
    {
        let ghost clips = o.tracks@[k as int].clips@;
        proof {
            assert(track_fits(clips));
            assert(end_at(clips, clips.len() as int) <= i32::MAX);
        }
        let m = timeline.tracks[k].clips.len();
        let mut last_clip_end: u32 = 0;
        let mut i: usize = 0;
        while i < m && can_move_clips
            invariant
                *timeline == o,
                n == o.tracks@.len(),
                k < n,
                clips == o.tracks@[k as int].clips@,
                m == clips.len(),
                i <= m,
                track_fits(clips),
                end_at(clips, clips.len() as int) <= i32::MAX,
                last_clip_end == end_at(clips, i as int),
                i32::MIN < real_offset,
                forall|kk: int, ii: int|
                    0 <= kk < o.tracks@.len() && 0 <= ii < o.tracks@[kk].clips@.len()
                        && #[trigger] o.tracks@[kk].clips@[ii].is_selected ==> start_of(o.tracks@[kk].clips@, ii)
                        + real_offset <= i32::MAX,
                can_move_clips ==> forall|kk: int, ii: int|
                    ((0 <= kk < k && 0 <= ii < o.tracks@[kk].clips@.len()) || (kk == k && 0 <= ii < i))
                        && #[trigger] o.tracks@[kk].clips@[ii].is_selected ==> {
                        &&& start_of(o.tracks@[kk].clips@, ii) + real_offset >= 0
                        &&& fits_on_track(
                            o.tracks@[kk].clips@,
                            start_of(o.tracks@[kk].clips@, ii) + real_offset,
                            o.tracks@[kk].clips@[ii].duration_frames as int,
                            true,
                        )
                    },
                !can_move_clips ==> !can_move_selected(o, real_offset as int),
            decreases m - i,
        {
            proof {
                lemma_clip_in_track(clips, i as int);
            }
            let clip_start_time = last_clip_end + timeline.tracks[k].clips[i].offset_frames;
            let dur = timeline.tracks[k].clips[i].duration_frames;
            last_clip_end = clip_start_time + dur;
            if timeline.tracks[k].clips[i].is_selected {
                proof {
                    assert(o.tracks@[k as int].clips@[i as int].is_selected);
                }
                if real_offset < 0 && (-real_offset) as u32 > clip_start_time {
                    can_move_clips = false;
                } else {
                    let pos = (clip_start_time as i32 + real_offset) as u32;
                    if !can_fit_clip(&timeline.tracks[k], pos, dur, true) {
                        can_move_clips = false;
                    }
                }
            }
            i = i + 1;
        }
        k = k + 1;
    }
    if !can_move_clips {
        return;
    }
    proof {
        assert(can_move_selected(o, real_offset as int));
    }
    let mut k: usize = 0;
    while k < n
        invariant
            n == o.tracks@.len(),
            timeline.tracks@.len() == n,
            k <= n,
            timeline_fits(o),
            frames_fit_i32(o),
            empty_selected_clips_last(o),
            can_move_selected(o, real_offset as int),
            forall|kk: int, i: int|
                0 <= kk < o.tracks@.len() && 0 <= i < o.tracks@[kk].clips@.len()
                    && #[trigger] o.tracks@[kk].clips@[i].is_selected ==> start_of(o.tracks@[kk].clips@, i)
                    + real_offset <= i32::MAX,
            forall|kk: int| k <= kk < n ==> #[trigger] timeline.tracks@[kk] == o.tracks@[kk],
            forall|kk: int|
                0 <= kk < k ==> #[trigger] placements(timeline.tracks@[kk].clips@) == moved_track(
                    o.tracks@[kk].clips@,
                    real_offset as int,
                ) && track_fits(timeline.tracks@[kk].clips@),
        decreases n - k,
    {
        let ghost a = o.tracks@[k as int].clips@;
        proof {
            assert(track_fits(a));
            assert(end_at(a, a.len() as int) <= i32::MAX);
            assert forall|i: int| 0 <= i < a.len() && #[trigger] a[i].is_selected implies 0 <= start_of(a, i)
                + real_offset <= i32::MAX by {
                assert(o.tracks@[k as int].clips@[i].is_selected);
            }
        }
        let moved = take_selected(&mut timeline.tracks[k], real_offset);
        proof {
            let pl = placements(a);
            let u = unselected_prefix(pl, a.len() as int);
            let mm = moved_prefix(pl, a.len() as int, real_offset as int);
            assert(as_placed(moved@) == mm);
            lemma_moved_prefix_ordered(a, a.len() as int, real_offset as int);
            assert(selected_empty_clips_last(o.tracks@[k as int].clips@));
            lemma_moved_prefix_empty_last(a, a.len() as int, real_offset as int);
            assert forall|x: int| 0 <= x < moved@.len() implies #[trigger] moved@[x].0 + moved@[x].1.duration_frames
                <= u32::MAX by {
                lemma_moved_prefix_origin(pl, a.len() as int, real_offset as int, x);
                let i = choose|i: int|
                    0 <= i < a.len() && pl[i].1.is_selected && mm[x] == (#[trigger] pl[i].0
                        + real_offset, pl[i].1);
                assert(as_placed(moved@)[x] == mm[x]);
                assert(o.tracks@[k as int].clips@[i].is_selected);
                lemma_clip_in_track(a, i);
            }
            assert forall|x: Placed, b: int|
                u.contains(x) && 0 <= b < moved@.len() implies #[trigger] compatible(
                    x,
                    #[trigger] moved@[b].0 as int,
                    moved@[b].1.duration_frames as int,
                ) by {
                lemma_unselected_prefix_origin(pl, a.len() as int, x);
                let j = choose|j: int| 0 <= j < a.len() && !pl[j].1.is_selected && #[trigger] pl[j] == x;
                lemma_moved_prefix_origin(pl, a.len() as int, real_offset as int, b);
                let i = choose|i: int|
                    0 <= i < a.len() && pl[i].1.is_selected && mm[b] == (#[trigger] pl[i].0
                        + real_offset, pl[i].1);
                assert(as_placed(moved@)[b] == mm[b]);
                assert(o.tracks@[k as int].clips@[i].is_selected);
                assert(fits_on_track(a, start_of(a, i) + real_offset, a[i].duration_frames as int, true));
                assert(!blocks(a, j, start_of(a, i) + real_offset, a[i].duration_frames as int));
            }
        }
        put_back(&mut timeline.tracks[k], moved);
        k = k + 1;
    }
    editor_state.drag_offset = frame_offset;
    proof {
        let f = *timeline;
        assert forall|kk: int| 0 <= kk < f.tracks@.len() implies #[trigger] track_fits(f.tracks@[kk].clips@) by {
            assert(placements(f.tracks@[kk].clips@) == moved_track(o.tracks@[kk].clips@, real_offset as int));
        }
        assert(timeline_fits(f));
    }
}

/// Some clip of the list is selected.
pub open spec fn has_selected(clips: Seq<Clip>) -> bool {
    exists|i: int| 0 <= i < clips.len() && #[trigger] clips[i].is_selected
}

/// Smallest destination track index (at most 0) among the tracks, of the first `n`, that hold
/// a selected clip, when selected clips move `shift` tracks.
pub open spec fn min_target(t: Timeline, shift: int, n: int) -> int
    decreases n,
{
    if n <= 0 {
        0
    } else {
        let m = min_target(t, shift, n - 1);
        if has_selected(t.tracks@[n - 1].clips@) && n - 1 + shift < m {
            n - 1 + shift
        } else {
            m
        }
    }
}

/// Largest destination track index (at least 0), as `min_target`.
pub open spec fn max_target(t: Timeline, shift: int, n: int) -> int
    decreases n,
{
    if n <= 0 {
        0
    } else {
        let m = max_target(t, shift, n - 1);
        if has_selected(t.tracks@[n - 1].clips@) && n - 1 + shift > m {
            n - 1 + shift
        } else {
            m
        }
    }
}

/// Number of new tracks put in front when selected clips move `shift` tracks.
pub open spec fn lead_tracks(t: Timeline, shift: int) -> int {
    let m = min_target(t, shift, t.tracks@.len() as int);
    if m < 0 {
        -m
    } else {
        0
    }
}

/// Number of tracks before empty ones are trimmed, when selected clips move `shift` tracks.
pub open spec fn retracked_len(t: Timeline, shift: int) -> int {
    let mx = max_target(t, shift, t.tracks@.len() as int);
    lead_tracks(t, shift) + if mx + 1 > t.tracks@.len() {
        mx + 1
    } else {
        t.tracks@.len() as int
    }
}

/// The placements of each track, before empty tracks are trimmed, once selected clips move
/// `shift` tracks: each track keeps its unselected clips, and takes in the selected clips of
/// the track `shift` tracks before it at their start frames.
pub open spec fn retracked(t: Timeline, shift: int) -> Seq<Seq<Placed>> {
    Seq::new(
        retracked_len(t, shift) as nat,
        |j: int| insert_all(retrack_base(t, shift, j), retrack_arrivals(t, shift, j)),
    )
}

/// What stays on track `j` of the new track list when selected clips move `shift` tracks: the
/// unselected clips of the old track it continues, if any.
pub open spec fn retrack_base(t: Timeline, shift: int, j: int) -> Seq<Placed> {
    let k = j - lead_tracks(t, shift);
    if 0 <= k < t.tracks@.len() {
        unselected_prefix(placements(t.tracks@[k].clips@), t.tracks@[k].clips@.len() as int)
    } else {
        Seq::empty()
    }
}

/// What arrives on track `j` of the new track list when selected clips move `shift` tracks: the
/// selected clips of the old track `shift` tracks before it, at their start frames.
pub open spec fn retrack_arrivals(t: Timeline, shift: int, j: int) -> Seq<Placed> {
    let src = j - lead_tracks(t, shift) - shift;
    if 0 <= src < t.tracks@.len() {
        moved_prefix(placements(t.tracks@[src].clips@), t.tracks@[src].clips@.len() as int, 0)
    } else {
        Seq::empty()
    }
}

/// Whether every selected clip can move `shift` tracks: onto an existing track, it must not
/// run into an unselected clip there.
pub open spec fn can_retrack(t: Timeline, shift: int) -> bool {
    forall|k: int, i: int|
        0 <= k < t.tracks@.len() && 0 <= i < t.tracks@[k].clips@.len()
            && #[trigger] t.tracks@[k].clips@[i].is_selected ==> k + shift < 0 || k + shift
            >= t.tracks@.len() || fits_on_track(
            t.tracks@[k + shift].clips@,
            start_of(t.tracks@[k].clips@, i),
            t.tracks@[k].clips@[i].duration_frames as int,
            true,
        )
}

fn has_selected_clip(track: &Track) -> (b: bool)
    ensures
        b == has_selected(track.clips@),
{
    let n = track.clips.len();
    let mut i: usize = 0;
    while i < n
        invariant
            n == track.clips@.len(),
            i <= n,
            forall|j: int| 0 <= j < i ==> !#[trigger] track.clips@[j].is_selected,
        decreases n - i,
    {
        if track.clips[i].is_selected {
            return true;
        }
        i = i + 1;
    }
    false
}

/// Moves the selected clips `track_offset` tracks from where the drag began (the editor
/// remembers how far they have already moved), adding tracks before or after as needed and then
/// trimming empty tracks at both ends. Nothing changes unless every selected clip fits on its new
/// track; then the editor's track offset becomes `track_offset`.
#[verifier::spinoff_prover]
#[verifier::rlimit(60)]
pub fn change_selected_clip_tracks(
    timeline: &mut Timeline,
    editor_state: &mut EditorState,
    track_offset: i32,
)
    requires
        timeline_fits(*old(timeline)),
        frames_fit_i32(*old(timeline)),
        track_offset != old(editor_state).track_offset && can_retrack(
            *old(timeline),
            track_offset - old(editor_state).track_offset,
        ) ==> empty_selected_clips_last(*old(timeline)),
        old(timeline).tracks@.len() <= i32::MAX,
        i32::MIN < track_offset - old(editor_state).track_offset <= i32::MAX,
        forall|k: int|
            0 <= k < old(timeline).tracks@.len() && has_selected(#[trigger] old(timeline).tracks@[k].clips@)
                ==> k + track_offset - old(editor_state).track_offset <= i32::MAX,
    ensures
        ({
            let shift = track_offset - old(editor_state).track_offset;
            let o = *old(timeline);
            let f = *final(timeline);
            let r = retracked(o, shift);
            if shift != 0 && can_retrack(o, shift) {
                &&& *final(editor_state) == (EditorState { track_offset: track_offset, ..*old(editor_state) })
                &&& timeline_fits(f)
                &&& if forall|i: int| 0 <= i < r.len() ==> #[trigger] r[i].len() == 0 {
                    &&& f.tracks@.len() == 1
                    &&& f.tracks@[0].clips@.len() == 0
                } else {
                    exists|a: int, b: int|
                        #![trigger r.subrange(a, b)]
                        {
                            &&& 0 <= a < b <= r.len()
                            &&& forall|i: int| 0 <= i < a ==> #[trigger] r[i].len() == 0
                            &&& r[a].len() != 0
                            &&& r[b - 1].len() != 0
                            &&& forall|i: int| b <= i < r.len() ==> #[trigger] r[i].len() == 0
                            &&& f.tracks@.len() == r.subrange(a, b).len()
                            &&& forall|i: int|
                                0 <= i < b - a ==> #[trigger] placements(f.tracks@[i].clips@) == r[a + i]
                        }
                }
            } else {
                &&& f == o
                &&& *final(editor_state) == *old(editor_state)
            }
        }),
{
    let real_offset = track_offset - editor_state.track_offset;
    if real_offset == 0 {
        return;
    }
    let ghost o = *timeline;
    let n = timeline.tracks.len();
    // Make sure every selected clip fits on its new track.
    let mut can_move_clips = true;
    let mut k: usize = 0;
    while k < n && can_move_clips
        invariant
            *timeline == o,
            n == o.tracks@.len(),
            n <= i32::MAX,
            k <= n,
            timeline_fits(o),
            forall|kk: int|
                0 <= kk < o.tracks@.len() && has_selected(#[trigger] o.tracks@[kk].clips@) ==> kk
                    + real_offset <= i32::MAX,
            i32::MIN < real_offset,
            can_move_clips ==> forall|kk: int, i: int|
                0 <= kk < k && 0 <= i < o.tracks@[kk].clips@.len()
                    && #[trigger] o.tracks@[kk].clips@[i].is_selected ==> kk + real_offset < 0 || kk
                    + real_offset >= n || fits_on_track(
                    o.tracks@[kk + real_offset].clips@,
                    start_of(o.tracks@[kk].clips@, i),
                    o.tracks@[kk].clips@[i].duration_frames as int,
                    true,
                ),
            !can_move_clips ==> !can_retrack(o, real_offset as int),
        decreases n - k,
    {
        let ghost clips = o.tracks@[k as int].clips@;
        proof {
            assert(track_fits(clips));
        }
        let m = timeline.tracks[k].clips.len();
        let mut last_clip_end: u32 = 0;
        let mut i: usize = 0;
        while i < m && can_move_clips
            invariant
                *timeline == o,
                n == o.tracks@.len(),
                n <= i32::MAX,
                k < n,
                clips == o.tracks@[k as int].clips@,
                m == clips.len(),
                i <= m,
                timeline_fits(o),
                track_fits(clips),
                last_clip_end == end_at(clips, i as int),
                i32::MIN < real_offset,
                forall|kk: int|
                    0 <= kk < o.tracks@.len() && has_selected(#[trigger] o.tracks@[kk].clips@) ==> kk
                        + real_offset <= i32::MAX,
                can_move_clips ==> forall|kk: int, ii: int|
                    ((0 <= kk < k && 0 <= ii < o.tracks@[kk].clips@.len()) || (kk == k && 0 <= ii < i))
                        && #[trigger] o.tracks@[kk].clips@[ii].is_selected ==> kk + real_offset < 0 || kk
                        + real_offset >= n || fits_on_track(
                        o.tracks@[kk + real_offset].clips@,
                        start_of(o.tracks@[kk].clips@, ii),
                        o.tracks@[kk].clips@[ii].duration_frames as int,
                        true,
                    ),
                !can_move_clips ==> !can_retrack(o, real_offset as int),
            decreases m - i,
        {
            proof {
                lemma_clip_in_track(clips, i as int);
            }
            let clip_start_time = last_clip_end + timeline.tracks[k].clips[i].offset_frames;
            let dur = timeline.tracks[k].clips[i].duration_frames;
            last_clip_end = clip_start_time + dur;
            if timeline.tracks[k].clips[i].is_selected {
                proof {
                    assert(o.tracks@[k as int].clips@[i as int].is_selected);
                    assert(has_selected(o.tracks@[k as int].clips@));
                }
                let new_track_index = k as i32 + real_offset;
                if new_track_index >= 0 && new_track_index < n as i32 {
                    proof {
                        assert(track_fits(o.tracks@[new_track_index as int].clips@));
                    }
                    if !can_fit_clip(
                        &timeline.tracks[new_track_index as usize],
                        clip_start_time,
                        dur,
                        true,
                    ) {
                        can_move_clips = false;
                    }
                }
            }
            i = i + 1;
        }
        k = k + 1;
    }
    if !can_move_clips {
        return;
    }
    proof {
        assert(can_retrack(o, real_offset as int));
    }
    // The range of destination tracks.
    let mut min_track_index: i32 = 0;
    let mut max_track_index: i32 = 0;
    let mut k: usize = 0;
    while k < n
        invariant
            *timeline == o,
            n == o.tracks@.len(),
            n <= i32::MAX,
            k <= n,
            i32::MIN < real_offset,
            forall|kk: int|
                0 <= kk < o.tracks@.len() && has_selected(#[trigger] o.tracks@[kk].clips@) ==> kk
                    + real_offset <= i32::MAX,
            min_track_index == min_target(o, real_offset as int, k as int),
            max_track_index == max_target(o, real_offset as int, k as int),
        decreases n - k,
    {
        if has_selected_clip(&timeline.tracks[k]) {
            let new_track_index = k as i32 + real_offset;
            if new_track_index < min_track_index {
                min_track_index = new_track_index;
            }
            if new_track_index > max_track_index {
                max_track_index = new_track_index;
            }
        }
        k = k + 1;
    }
    proof {
        lemma_min_max_target_bounds(o, real_offset as int, n as int);
    }
    let track_index_offset: usize = if min_track_index < 0 {
        (-(min_track_index as i64)) as usize
    } else {
        0
    };
    // Pull every selected clip out of its track.
    let mut pulled: Vec<Vec<(u32, Clip)>> = Vec::new();
    let mut k: usize = 0;
    while k < n
        invariant
            n == o.tracks@.len(),
            timeline.tracks@.len() == n,
            k <= n,
            n <= i32::MAX,
            timeline_fits(o),
            frames_fit_i32(o),
            empty_selected_clips_last(o),
            can_retrack(o, real_offset as int),
            i32::MIN < real_offset,
            min_track_index == min_target(o, real_offset as int, n as int),
            max_track_index == max_target(o, real_offset as int, n as int),
            min_track_index < 0 ==> track_index_offset == -min_track_index,
            min_track_index >= 0 ==> track_index_offset == 0,
            min_track_index <= 0 <= max_track_index,
            min_track_index >= real_offset || min_track_index == 0,
            max_track_index < n + real_offset || max_track_index == 0,
            forall|kk: int|
                0 <= kk < o.tracks@.len() && has_selected(#[trigger] o.tracks@[kk].clips@) ==> kk
                    + real_offset <= i32::MAX,
            forall|kk: int|
                0 <= kk < o.tracks@.len() && has_selected(#[trigger] o.tracks@[kk].clips@) ==> min_target(
                    o,
                    real_offset as int,
                    n as int,
                ) <= kk + real_offset <= max_target(o, real_offset as int, n as int),
            pulled@.len() == k,
            forall|kk: int| k <= kk < n ==> #[trigger] timeline.tracks@[kk] == o.tracks@[kk],
            forall|kk: int|
                0 <= kk < k ==> #[trigger] placements(timeline.tracks@[kk].clips@) == unselected_prefix(
                    placements(o.tracks@[kk].clips@),
                    o.tracks@[kk].clips@.len() as int,
                ) && track_fits(timeline.tracks@[kk].clips@),
            forall|kk: int|
                0 <= kk < k ==> as_placed(#[trigger] pulled@[kk]@) == moved_prefix(
                    placements(o.tracks@[kk].clips@),
                    o.tracks@[kk].clips@.len() as int,
                    0,
                ),
        decreases n - k,
    {
        let ghost a = o.tracks@[k as int].clips@;
        proof {
            assert(track_fits(a));
            assert(end_at(a, a.len() as int) <= i32::MAX);
            assert forall|i: int| 0 <= i < a.len() && #[trigger] a[i].is_selected implies 0 <= start_of(a, i)
                + 0 <= i32::MAX by {
                lemma_clip_in_track(a, i);
            }
        }
        let moved = take_selected(&mut timeline.tracks[k], 0);
        pulled.push(moved);
        k = k + 1;
    }
    // Lay out the new track list: new tracks in front, the old ones, new tracks behind.
    let ghost lead = lead_tracks(o, real_offset as int);
    let ghost r = retracked(o, real_offset as int);
    proof {
        assert(track_index_offset == lead);
        assert(lead <= 0x8000_0000);
        assert(min_track_index < 0 ==> max_track_index < n);
    }
    let needed: usize = if max_track_index as usize + 1 > n {
        max_track_index as usize + 1
    } else {
        n
    };
    let total: usize = track_index_offset + needed;
    proof {
        assert(total == r.len());
    }
    let mut new_tracks: Vec<Track> = Vec::new();
    let mut t: usize = 0;
    while t < track_index_offset
        invariant
            t <= track_index_offset,
            new_tracks@.len() == t,
            forall|j: int| 0 <= j < t ==> #[trigger] new_tracks@[j].clips@.len() == 0,
        decreases track_index_offset - t,
    {
        new_tracks.push(Track::default());
        t = t + 1;
    }
    let ghost pulled_tracks = timeline.tracks@;
    let ghost front = new_tracks@;
    new_tracks.append(&mut timeline.tracks);
    proof {
        assert(new_tracks@ == front + pulled_tracks);
        assert forall|j: int| 0 <= j < n implies #[trigger] new_tracks@[track_index_offset + j]
            == pulled_tracks[j] by {
            assert(new_tracks@[track_index_offset + j] == (front + pulled_tracks)[front.len() + j]);
        }
    }
    while new_tracks.len() < total
        invariant
            total == track_index_offset + needed,
            n <= needed,
            pulled_tracks.len() == n,
            track_index_offset + n <= new_tracks@.len() <= total,
            forall|j: int| 0 <= j < track_index_offset ==> #[trigger] new_tracks@[j].clips@.len() == 0,
            forall|j: int| 0 <= j < n ==> #[trigger] new_tracks@[track_index_offset + j] == pulled_tracks[j],
            forall|j: int|
                track_index_offset + n <= j < new_tracks@.len() ==> #[trigger] new_tracks@[j].clips@.len() == 0,
        decreases total - new_tracks@.len(),
    {
        new_tracks.push(Track::default());
    }
    timeline.tracks = new_tracks;
    proof {
        assert(timeline.tracks@.len() == r.len());
        assert forall|j: int| 0 <= j < r.len() implies #[trigger] placements(timeline.tracks@[j].clips@)
            == retrack_base(o, real_offset as int, j) && track_fits(timeline.tracks@[j].clips@) by {
            let kk = j - lead;
            if 0 <= kk < n {
                assert(timeline.tracks@[track_index_offset + kk] == pulled_tracks[kk]);
                assert(placements(pulled_tracks[kk].clips@) == unselected_prefix(
                    placements(o.tracks@[kk].clips@),
                    o.tracks@[kk].clips@.len() as int,
                ));
            } else {
                assert(timeline.tracks@[j].clips@.len() == 0);
                assert(placements(timeline.tracks@[j].clips@) =~= Seq::<Placed>::empty());
            }
        }
        assert forall|j: int| 0 <= j < r.len() implies #[trigger] track_fits(timeline.tracks@[j].clips@) by {
            assert(placements(timeline.tracks@[j].clips@) == retrack_base(o, real_offset as int, j));
        }
    }
    // Put each pulled clip back on its new track.
    let mut src: usize = n;
    while src > 0
        invariant
            n == o.tracks@.len(),
            n <= i32::MAX,
            src <= n,
            pulled@.len() == src,
            lead == lead_tracks(o, real_offset as int),
            0 <= lead <= 0x8000_0000,
            track_index_offset == lead,
            i32::MIN < real_offset,
            r == retracked(o, real_offset as int),
            timeline.tracks@.len() == r.len(),
            timeline_fits(o),
            empty_selected_clips_last(o),
            can_retrack(o, real_offset as int),
            forall|kk: int|
                0 <= kk < o.tracks@.len() && has_selected(#[trigger] o.tracks@[kk].clips@) ==> kk
                    + real_offset <= i32::MAX,
            forall|kk: int|
                0 <= kk < o.tracks@.len() && has_selected(#[trigger] o.tracks@[kk].clips@) ==> min_target(
                    o,
                    real_offset as int,
                    n as int,
                ) <= kk + real_offset <= max_target(o, real_offset as int, n as int),
            forall|kk: int|
                0 <= kk < src ==> as_placed(#[trigger] pulled@[kk]@) == moved_prefix(
                    placements(o.tracks@[kk].clips@),
                    o.tracks@[kk].clips@.len() as int,
                    0,
                ),
            forall|j: int| 0 <= j < r.len() ==> #[trigger] track_fits(timeline.tracks@[j].clips@),
            forall|j: int|
                0 <= j < r.len() ==> #[trigger] placements(timeline.tracks@[j].clips@) == if 0 <= j - lead
                    - real_offset && j - lead - real_offset >= src {
                    r[j]
                } else {
                    retrack_base(o, real_offset as int, j)
                },
        decreases src,
    {
        src = src - 1;
        let moved = pulled.pop().unwrap();
        if moved.len() > 0 {
            let ghost a = o.tracks@[src as int].clips@;
            let ghost pl = placements(a);
            proof {
                lemma_moved_prefix_origin(pl, a.len() as int, 0, 0);
                let i = choose|i: int|
                    0 <= i < a.len() && pl[i].1.is_selected && moved_prefix(pl, a.len() as int, 0)[0] == (
                    #[trigger] pl[i].0 + 0, pl[i].1);
                assert(a[i].is_selected);
                assert(has_selected(o.tracks@[src as int].clips@));
                lemma_min_max_target_bounds(o, real_offset as int, n as int);
                assert(0 <= src + real_offset + lead < r.len());
            }
            let target = (src as i64 + real_offset as i64 + track_index_offset as i64) as usize;
            proof {
                let j = target as int;
                let kk = j - lead;
                assert(0 <= j < r.len());
                let mm = moved_prefix(pl, a.len() as int, 0);
                assert(as_placed(moved@) == mm);
                assert(track_fits(a));
                lemma_moved_prefix_ordered(a, a.len() as int, 0);
                assert(selected_empty_clips_last(o.tracks@[src as int].clips@));
                lemma_moved_prefix_empty_last(a, a.len() as int, 0);
                assert forall|x: int| 0 <= x < moved@.len() implies #[trigger] moved@[x].0 + moved@[x].1.duration_frames
                    <= u32::MAX by {
                    lemma_moved_prefix_origin(pl, a.len() as int, 0, x);
                    let i = choose|i: int|
                        0 <= i < a.len() && pl[i].1.is_selected && mm[x] == (#[trigger] pl[i].0
                            + 0, pl[i].1);
                    assert(as_placed(moved@)[x] == mm[x]);
                    lemma_clip_in_track(a, i);
                }
                assert forall|x: Placed, b: int|
                    placements(timeline.tracks@[j].clips@).contains(x) && 0 <= b < moved@.len() implies #[trigger] compatible(
                        x,
                        #[trigger] moved@[b].0 as int,
                        moved@[b].1.duration_frames as int,
                    ) by {
                    assert(placements(timeline.tracks@[j].clips@) == retrack_base(o, real_offset as int, j));
                    lemma_moved_prefix_origin(pl, a.len() as int, 0, b);
                    let i = choose|i: int|
                        0 <= i < a.len() && pl[i].1.is_selected && mm[b] == (#[trigger] pl[i].0
                            + 0, pl[i].1);
                    assert(as_placed(moved@)[b] == mm[b]);
                    assert(o.tracks@[src as int].clips@[i].is_selected);
                    if 0 <= kk < n {
                        let ta = o.tracks@[kk].clips@;
                        assert(retrack_base(o, real_offset as int, j) == unselected_prefix(
                            placements(ta),
                            ta.len() as int,
                        ));
                        lemma_unselected_prefix_origin(placements(ta), ta.len() as int, x);
                        let jj = choose|jj: int|
                            0 <= jj < ta.len() && !placements(ta)[jj].1.is_selected
                                && #[trigger] placements(ta)[jj] == x;
                        assert(kk == src + real_offset);
                        assert(fits_on_track(ta, start_of(a, i), a[i].duration_frames as int, true));
                        assert(!blocks(ta, jj, start_of(a, i), a[i].duration_frames as int));
                    } else {
                        assert(retrack_base(o, real_offset as int, j) =~= Seq::<Placed>::empty());
                    }
                }
            }
            let ghost before = timeline.tracks@;
            put_back(&mut timeline.tracks[target], moved);
            proof {
                let j = target as int;
                assert(r[j] == insert_all(
                    retrack_base(o, real_offset as int, j),
                    retrack_arrivals(o, real_offset as int, j),
                ));
                assert forall|jj: int| 0 <= jj < r.len() implies #[trigger] placements(timeline.tracks@[jj].clips@)
                    == if 0 <= jj - lead - real_offset && jj - lead - real_offset >= src {
                    r[jj]
                } else {
                    retrack_base(o, real_offset as int, jj)
                } && track_fits(timeline.tracks@[jj].clips@) by {
                    if jj != j {
                        assert(timeline.tracks@[jj] == before[jj]);
                    } else {
                        assert(placements(before[j].clips@) == retrack_base(o, real_offset as int, j));
                    }
                }
                assert forall|jj: int| 0 <= jj < r.len() implies #[trigger] track_fits(timeline.tracks@[jj].clips@) by {
                    if jj != j {
                        assert(timeline.tracks@[jj] == before[jj]);
                    }
                }
            }
        } else {
            proof {
                let a = o.tracks@[src as int].clips@;
                let j = src + real_offset + lead;
                assert(moved_prefix(placements(a), a.len() as int, 0).len() == 0);
                if 0 <= j < r.len() {
                    assert(r[j] == insert_all(
                        retrack_base(o, real_offset as int, j),
                        retrack_arrivals(o, real_offset as int, j),
                    ));
                    assert(retrack_arrivals(o, real_offset as int, j) =~= Seq::<Placed>::empty());
                }
            }
        }
    }
    proof {
        assert forall|j: int| 0 <= j < r.len() implies #[trigger] placements(timeline.tracks@[j].clips@) == r[j] by {
            let kk = j - lead;
            let sidx = kk - real_offset;
            if !(0 <= sidx < n) {
                assert(r[j] == insert_all(
                    retrack_base(o, real_offset as int, j),
                    retrack_arrivals(o, real_offset as int, j),
                ));
                assert(retrack_arrivals(o, real_offset as int, j) =~= Seq::<Placed>::empty());
            }
        }
    }
    let ghost pre = timeline.tracks@;
    trim_empty_tracks(timeline);
    editor_state.track_offset = track_offset;
    proof {
        assert forall|i: int| 0 <= i < r.len() implies (#[trigger] r[i].len() == 0) == (pre[i].clips@.len() == 0) by {
            assert(placements(pre[i].clips@) == r[i]);
        }
        let f = *timeline;
        if forall|i: int| 0 <= i < r.len() ==> #[trigger] r[i].len() == 0 {
            assert forall|i: int| 0 <= i < pre.len() implies #[trigger] pre[i].clips@.len() == 0 by {
                assert(r[i].len() == 0);
            }
        } else {
            assert(!forall|i: int| 0 <= i < pre.len() ==> #[trigger] pre[i].clips@.len() == 0);
            let (a, b) = choose|a: int, b: int|
                {
                    &&& 0 <= a < b <= pre.len()
                    &&& forall|i: int| 0 <= i < a ==> #[trigger] pre[i].clips@.len() == 0
                    &&& pre[a].clips@.len() != 0
                    &&& pre[b - 1].clips@.len() != 0
                    &&& forall|i: int| b <= i < pre.len() ==> #[trigger] pre[i].clips@.len() == 0
                    &&& f.tracks@ == pre.subrange(a, b)
                };
            assert forall|i: int| 0 <= i < b - a implies #[trigger] placements(f.tracks@[i].clips@) == r[a + i] by {
                assert(f.tracks@[i] == pre[a + i]);
            }
            assert(f.tracks@.len() == r.subrange(a, b).len());
        }
        assert forall|kk: int| 0 <= kk < f.tracks@.len() implies #[trigger] track_fits(f.tracks@[kk].clips@) by {
            if forall|i: int| 0 <= i < pre.len() ==> #[trigger] pre[i].clips@.len() == 0 {
            } else {
                let (a, b) = choose|a: int, b: int|
                    {
                        &&& 0 <= a < b <= pre.len()
                        &&& forall|i: int| 0 <= i < a ==> #[trigger] pre[i].clips@.len() == 0
                        &&& pre[a].clips@.len() != 0
                        &&& pre[b - 1].clips@.len() != 0
                        &&& forall|i: int| b <= i < pre.len() ==> #[trigger] pre[i].clips@.len() == 0
                        &&& f.tracks@ == pre.subrange(a, b)
                    };
                assert(f.tracks@[kk] == pre[a + kk]);
            }
        }
    }
}

proof fn lemma_min_max_target_bounds(t: Timeline, shift: int, n: int)
    requires
        0 <= n <= t.tracks@.len(),
    ensures
        min_target(t, shift, n) <= 0 <= max_target(t, shift, n),
        min_target(t, shift, n) >= shift || min_target(t, shift, n) == 0,
        max_target(t, shift, n) < n + shift || max_target(t, shift, n) == 0,
        forall|k: int|
            0 <= k < n && has_selected(#[trigger] t.tracks@[k].clips@) ==> min_target(t, shift, n) <= k
                + shift <= max_target(t, shift, n),
    decreases n,
{
    if n > 0 {
        lemma_min_max_target_bounds(t, shift, n - 1);
    }
}

proof fn lemma_next_offset_bound(a: Seq<Clip>, i: int)
    requires
        0 <= i,
        i + 1 < a.len(),
    ensures
        a[i + 1].offset_frames + a[i].duration_frames <= end_at(a, a.len() as int),
{
    lemma_end_at_monotonic(a, i + 2, a.len() as int);
    lemma_end_at_monotonic(a, 0, i);
    assert(end_at(a, i + 1) == end_at(a, i) + a[i].offset_frames + a[i].duration_frames);
    assert(end_at(a, i + 2) == end_at(a, i + 1) + a[i + 1].offset_frames + a[i + 1].duration_frames);
}

proof fn lemma_resized_right_track(a: Seq<Clip>, b: Seq<Clip>, shift: int, n: int)
    requires
        track_fits(a),
        b.len() == a.len(),
        0 <= n <= a.len(),
        forall|j: int| 0 <= j < a.len() ==> #[trigger] resized_right_at(a, b, j, shift),
        forall|j: int|
            0 <= j < a.len() && #[trigger] a[j].is_selected ==> if shift > 0 {
                &&& j + 1 < a.len() ==> shift <= a[j + 1].offset_frames
                &&& a[j].duration_frames + shift <= u32::MAX
            } else {
                -shift <= a[j].duration_frames
            },
    ensures
        end_at(b, n) == end_at(a, n) + if n > 0 && a[n - 1].is_selected {
            shift
        } else {
            0
        },
    decreases n,
{
    if n > 0 {
        lemma_resized_right_track(a, b, shift, n - 1);
        assert(resized_right_at(a, b, n - 1, shift));
        if n > 1 && a[n - 2].is_selected {
            lemma_next_offset_bound(a, n - 2);
            assert(0 <= a[n - 1].offset_frames - shift <= u32::MAX);
        }
        if a[n - 1].is_selected {
            assert(0 <= a[n - 1].duration_frames + shift <= u32::MAX);
        }
    }
}

proof fn lemma_resized_left_track(a: Seq<Clip>, b: Seq<Clip>, shift: int)
    requires
        track_fits(a),
        b.len() == a.len(),
        forall|j: int|
            0 <= j < a.len() && #[trigger] a[j].is_selected ==> if shift > 0 {
                shift <= a[j].duration_frames
            } else {
                -shift <= a[j].offset_frames
            },
        forall|j: int|
            0 <= j < a.len() ==> if a[j].is_selected {
                resized_left(a[j], #[trigger] b[j], shift)
            } else {
                #[trigger] b[j] == a[j]
            },
    ensures
        track_fits(b),
        forall|j: int|
            0 <= j < a.len() ==> #[trigger] start_of(b, j) == start_of(a, j) + if a[j].is_selected {
                shift
            } else {
                0
            } && end_of(b, j) == end_of(a, j),
{
    assert forall|j: int| 0 <= j < a.len() implies #[trigger] a[j].offset_frames + a[j].duration_frames
        == b[j].offset_frames + b[j].duration_frames by {
        lemma_clip_in_track(a, j);
        if a[j].is_selected {
            assert(resized_left(a[j], b[j], shift));
        } else {
            assert(b[j] == a[j]);
        }
    }
    assert forall|j: int| 0 <= j <= a.len() implies #[trigger] end_at(b, j) == end_at(a, j) by {
        lemma_end_at_same_extent(b, a, j);
    }
    assert forall|j: int| 0 <= j < a.len() implies #[trigger] start_of(b, j) == start_of(a, j) + if a[j].is_selected {
        shift
    } else {
        0
    } && end_of(b, j) == end_of(a, j) by {
        lemma_clip_in_track(a, j);
        assert(end_at(b, j) == end_at(a, j));
        if a[j].is_selected {
            assert(resized_left(a[j], b[j], shift));
        } else {
            assert(b[j] == a[j]);
        }
    }
}

proof fn lemma_insert_index_is_first(clips: Seq<Clip>, pos: int, k: int)
    requires
        0 <= k <= clips.len(),
        forall|j: int| 0 <= j < k ==> start_of(clips, j) < pos,
        k < clips.len() ==> start_of(clips, k) >= pos,
    ensures
        insert_index(clips, pos) == k,
{
    lemma_count_before_prefix(clips, pos, k);
    lemma_count_before_rest(clips, pos, k, clips.len() as int);
}

proof fn lemma_count_before_prefix(clips: Seq<Clip>, pos: int, i: int)
    requires
        0 <= i <= clips.len(),
        forall|j: int| 0 <= j < i ==> start_of(clips, j) < pos,
    ensures
        count_before(clips, pos, i) == i,
    decreases i,
{
    if i > 0 {
        lemma_count_before_prefix(clips, pos, i - 1);
    }
}

proof fn lemma_count_before_rest(clips: Seq<Clip>, pos: int, k: int, i: int)
    requires
        0 <= k <= i <= clips.len(),
        count_before(clips, pos, k) == k,
        k < clips.len() ==> start_of(clips, k) >= pos,
    ensures
        count_before(clips, pos, i) == k,
    decreases i,
{
    if i > k {
        lemma_count_before_rest(clips, pos, k, i - 1);
        if i - 1 > k {
            lemma_clips_ordered(clips, k, i - 1);
        }
    }
}

proof fn lemma_end_at_after_insert(old_clips: Seq<Clip>, new_clips: Seq<Clip>, k: int, pos: int)
    requires
        0 <= k <= old_clips.len(),
        new_clips.len() == old_clips.len() + 1,
        forall|j: int| 0 <= j < k ==> new_clips[j] == old_clips[j],
        forall|j: int| k + 1 < j < new_clips.len() ==> #[trigger] new_clips[j] == old_clips[j - 1],
        new_clips[k].offset_frames + end_at(old_clips, k) == pos,
        k < old_clips.len() ==> new_clips[k + 1] == (Clip {
            offset_frames: (old_clips[k].offset_frames - (new_clips[k].offset_frames
                + new_clips[k].duration_frames)) as u32,
            ..old_clips[k]
        }),
        k < old_clips.len() ==> new_clips[k].offset_frames + new_clips[k].duration_frames
            <= old_clips[k].offset_frames,
    ensures
        forall|j: int| 0 <= j <= k ==> #[trigger] end_at(new_clips, j) == end_at(old_clips, j),
        end_at(new_clips, k + 1) == pos + new_clips[k].duration_frames,
        forall|j: int|
            k + 1 < j <= new_clips.len() ==> #[trigger] end_at(new_clips, j) == end_at(
                old_clips,
                j - 1,
            ),
        start_of(new_clips, k) == pos,
        forall|j: int|
            0 <= j < new_clips.len() && j != k ==> #[trigger] start_of(new_clips, j) == start_of(
                old_clips,
                if j < k {
                    j
                } else {
                    j - 1
                },
            ),
{
    assert forall|j: int| 0 <= j <= k implies #[trigger] end_at(new_clips, j) == end_at(old_clips, j) by {
        lemma_end_at_same_prefix(new_clips, old_clips, j);
    }
    assert(end_at(new_clips, k + 1) == end_at(new_clips, k) + new_clips[k].offset_frames
        + new_clips[k].duration_frames);
    assert forall|j: int| k + 1 < j <= new_clips.len() implies #[trigger] end_at(new_clips, j)
        == end_at(old_clips, j - 1) by {
        lemma_end_at_after_insert_tail(old_clips, new_clips, k, pos, j);
    }
}

proof fn lemma_end_at_after_insert_tail(
    old_clips: Seq<Clip>,
    new_clips: Seq<Clip>,
    k: int,
    pos: int,
    j: int,
)
    requires
        0 <= k <= old_clips.len(),
        new_clips.len() == old_clips.len() + 1,
        forall|i: int| 0 <= i < k ==> new_clips[i] == old_clips[i],
        forall|i: int| k + 1 < i < new_clips.len() ==> #[trigger] new_clips[i] == old_clips[i - 1],
        new_clips[k].offset_frames + end_at(old_clips, k) == pos,
        k < old_clips.len() ==> new_clips[k + 1] == (Clip {
            offset_frames: (old_clips[k].offset_frames - (new_clips[k].offset_frames
                + new_clips[k].duration_frames)) as u32,
            ..old_clips[k]
        }),
        k < old_clips.len() ==> new_clips[k].offset_frames + new_clips[k].duration_frames
            <= old_clips[k].offset_frames,
        k + 1 < j <= new_clips.len(),
    ensures
        end_at(new_clips, j) == end_at(old_clips, j - 1),
    decreases j,
{
    lemma_end_at_same_prefix(new_clips, old_clips, k);
    if j == k + 2 {
        assert(end_at(new_clips, k + 1) == end_at(new_clips, k) + new_clips[k].offset_frames
            + new_clips[k].duration_frames);
        assert(end_at(new_clips, k + 2) == end_at(new_clips, k + 1) + new_clips[k + 1].offset_frames
            + new_clips[k + 1].duration_frames);
        assert(end_at(old_clips, k + 1) == end_at(old_clips, k) + old_clips[k].offset_frames
            + old_clips[k].duration_frames);
    } else {
        lemma_end_at_after_insert_tail(old_clips, new_clips, k, pos, j - 1);
    }
}

} // verus!
