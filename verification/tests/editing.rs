use atlas::editor_state::EditorState;
use atlas::timeline::{
    AnimatedPropertyField, Clip, ClipSource, CubicBezier, CurveInterpolation, CurveSegment,
    PropertyValue, Timeline, Track,
};
use atlas::binary_writer::Vector2;
use atlas::timeline_interactions::{
    can_fit_clip, change_selected_clip_tracks, delete_keyframe, deselect_all_clips,
    get_snapping_points, insert_clip, insert_keyframe, move_selected_clips, remove_clip,
    resize_selected_clips_left, resize_selected_clips_right, select_clip, snap_offset,
    trim_empty_tracks, GenerateIter,
};

fn clip(id: u32, offset: u32, duration: u32, selected: bool) -> Clip {
    Clip {
        id,
        name: format!("clip{}", id),
        schema: 0,
        source: ClipSource::Generator,
        offset_frames: offset,
        duration_frames: duration,
        property_groups: Vec::new(),
        is_selected: selected,
    }
}

fn track(clips: Vec<Clip>) -> Track {
    Track { clips }
}

/// (id, start frame, duration) of each clip of a track.
fn layout(t: &Track) -> Vec<(u32, u32, u32)> {
    let mut end = 0;
    let mut out = Vec::new();
    for c in &t.clips {
        let start = end + c.offset_frames;
        end = start + c.duration_frames;
        out.push((c.id, start, c.duration_frames));
    }
    out
}

fn selection(t: &Timeline) -> Vec<Vec<bool>> {
    t.tracks.iter().map(|tr| tr.clips.iter().map(|c| c.is_selected).collect()).collect()
}

fn field(offset: i32, start: u32, segments: Vec<(u32, u32, CurveInterpolation)>) -> AnimatedPropertyField {
    AnimatedPropertyField {
        local_offset_frames: offset,
        start_value: PropertyValue::Float(start),
        segments: segments
            .into_iter()
            .map(|(d, v, i)| CurveSegment {
                duration_frames: d,
                end_value: PropertyValue::Float(v),
                interpolation: i,
            })
            .collect(),
    }
}

fn segs(f: &AnimatedPropertyField) -> Vec<(u32, PropertyValue, CurveInterpolation)> {
    f.segments.iter().map(|s| (s.duration_frames, s.end_value, s.interpolation)).collect()
}

fn eased() -> CurveInterpolation {
    CurveInterpolation::CubicBezier(CubicBezier {
        c1: Vector2 { x: 1, y: 2 },
        c2: Vector2 { x: 3, y: 4 },
    })
}

#[test]
fn deselect_all_clears_every_flag() {
    let mut t = Timeline {
        tracks: vec![track(vec![clip(1, 0, 5, true), clip(2, 0, 5, false)]), track(vec![clip(3, 2, 5, true)])],
    };
    deselect_all_clips(&mut t);
    assert_eq!(selection(&t), vec![vec![false, false], vec![false]]);
}

#[test]
fn select_clip_toggles_and_exclusive_keeps_selected() {
    let mut t = Timeline { tracks: vec![track(vec![clip(1, 0, 5, true), clip(2, 0, 5, false)])] };
    select_clip(&mut t, 0, 1, true);
    assert_eq!(selection(&t), vec![vec![false, true]]);
    select_clip(&mut t, 0, 1, true);
    assert_eq!(selection(&t), vec![vec![false, true]]);
    select_clip(&mut t, 0, 0, false);
    assert_eq!(selection(&t), vec![vec![true, true]]);
    select_clip(&mut t, 0, 1, false);
    assert_eq!(selection(&t), vec![vec![true, false]]);
}

#[test]
fn can_fit_clip_checks_overlap() {
    let tr = track(vec![clip(1, 0, 10, true), clip(2, 20, 5, false)]);
    assert!(can_fit_clip(&tr, 10, 20, false));
    assert!(!can_fit_clip(&tr, 5, 10, false));
    assert!(can_fit_clip(&tr, 5, 10, true));
    assert!(!can_fit_clip(&tr, 25, 10, true));
    assert!(can_fit_clip(&tr, 35, 100, false));
}

#[test]
fn insert_clip_keeps_following_clip_in_place() {
    let mut tr = track(vec![clip(1, 0, 10, false), clip(2, 20, 5, false)]);
    assert!(insert_clip(&mut tr, clip(3, 99, 5, false), 15).is_ok());
    assert_eq!(layout(&tr), vec![(1, 0, 10), (3, 15, 5), (2, 30, 5)]);
    assert_eq!(tr.clips[1].offset_frames, 5);
    assert_eq!(tr.clips[2].offset_frames, 10);
}

#[test]
fn insert_clip_without_room_hands_clip_back() {
    let mut tr = track(vec![clip(1, 0, 10, false), clip(2, 20, 5, false)]);
    let before = tr.clone();
    match insert_clip(&mut tr, clip(3, 0, 20, false), 15) {
        Err(c) => assert_eq!(c.id, 3),
        Ok(()) => panic!("the clip does not fit"),
    }
    assert_eq!(tr, before);
}

#[test]
fn insert_clip_into_empty_track() {
    let mut tr = track(Vec::new());
    assert!(insert_clip(&mut tr, clip(7, 0, 4, false), 12).is_ok());
    assert_eq!(layout(&tr), vec![(7, 12, 4)]);
}

#[test]
fn remove_clip_keeps_next_start() {
    let mut tr = track(vec![clip(1, 0, 10, false), clip(2, 5, 10, false), clip(3, 0, 5, false)]);
    let removed = remove_clip(&mut tr, 1);
    assert_eq!(removed.id, 2);
    assert_eq!(layout(&tr), vec![(1, 0, 10), (3, 25, 5)]);
}

#[test]
fn remove_then_insert_restores_track() {
    let original = track(vec![clip(1, 0, 10, false), clip(2, 5, 10, false), clip(3, 0, 5, false)]);
    let mut tr = original.clone();
    let removed = remove_clip(&mut tr, 1);
    assert!(insert_clip(&mut tr, removed, 15).is_ok());
    assert_eq!(tr, original);
}

#[test]
fn snap_offset_picks_closest_point_within_threshold() {
    assert_eq!(snap_offset(10, &[3, 8, 13], 5), 8);
    assert_eq!(snap_offset(10, &[3, 8, 13], 0), 10);
    assert_eq!(snap_offset(10, &[8, 12], 5), 8);
    assert_eq!(snap_offset(10, &[8], 1), 10);
    assert_eq!(snap_offset(10, &[], 5), 10);
    assert_eq!(snap_offset(-4, &[-1, 0], 10), -1);
}

#[test]
fn snapping_points_are_sorted_and_distinct() {
    let t = Timeline {
        tracks: vec![track(vec![clip(1, 0, 10, true)]), track(vec![clip(2, 20, 10, false)])],
    };
    assert_eq!(get_snapping_points(&t), vec![-10, 0, 10, 20, 30]);
    let none_selected = Timeline { tracks: vec![track(vec![clip(2, 20, 10, false)])] };
    assert_eq!(get_snapping_points(&none_selected), Vec::<i32>::new());
}

#[test]
fn move_selected_clips_moves_only_when_all_fit() {
    let mut t = Timeline { tracks: vec![track(vec![clip(1, 0, 10, true), clip(2, 10, 10, false)])] };
    let mut e = EditorState::new(4);
    move_selected_clips(&mut t, &mut e, 5);
    assert_eq!(layout(&t.tracks[0]), vec![(1, 5, 10), (2, 20, 10)]);
    assert_eq!(e.drag_offset, 5);
    // Another 10 frames would run into the unselected clip.
    move_selected_clips(&mut t, &mut e, 15);
    assert_eq!(layout(&t.tracks[0]), vec![(1, 5, 10), (2, 20, 10)]);
    assert_eq!(e.drag_offset, 5);
    // Moving before frame 0 is refused.
    move_selected_clips(&mut t, &mut e, -10);
    assert_eq!(layout(&t.tracks[0]), vec![(1, 5, 10), (2, 20, 10)]);
    assert_eq!(e.drag_offset, 5);
    // Back to the start of the drag.
    move_selected_clips(&mut t, &mut e, 0);
    assert_eq!(layout(&t.tracks[0]), vec![(1, 0, 10), (2, 20, 10)]);
    assert_eq!(e.drag_offset, 0);
}

#[test]
fn move_selected_clip_past_another_reorders_track() {
    let mut t = Timeline { tracks: vec![track(vec![clip(1, 0, 5, true), clip(2, 0, 5, false)])] };
    let mut e = EditorState::new(4);
    move_selected_clips(&mut t, &mut e, 10);
    assert_eq!(layout(&t.tracks[0]), vec![(2, 5, 5), (1, 10, 5)]);
    assert_eq!(e.drag_offset, 10);
}

#[test]
fn resize_left_shrinks_and_refuses_past_previous_gap() {
    let mut t = Timeline { tracks: vec![track(vec![clip(1, 10, 10, true)])] };
    let mut e = EditorState::new(4);
    resize_selected_clips_left(&mut t, &mut e, 3, 1);
    assert_eq!(layout(&t.tracks[0]), vec![(1, 13, 7)]);
    assert_eq!(e.drag_offset, 3);
    resize_selected_clips_left(&mut t, &mut e, -20, 1);
    assert_eq!(layout(&t.tracks[0]), vec![(1, 13, 7)]);
    assert_eq!(e.drag_offset, 3);
    resize_selected_clips_left(&mut t, &mut e, 10, 1);
    assert_eq!(layout(&t.tracks[0]), vec![(1, 13, 7)]);
    resize_selected_clips_left(&mut t, &mut e, 9, 1);
    assert_eq!(layout(&t.tracks[0]), vec![(1, 19, 1)]);
    assert_eq!(e.drag_offset, 9);
}

#[test]
fn resize_right_keeps_next_clip_in_place() {
    let mut t = Timeline { tracks: vec![track(vec![clip(1, 0, 10, true), clip(2, 5, 10, false)])] };
    let mut e = EditorState::new(4);
    resize_selected_clips_right(&mut t, &mut e, 4, 1);
    assert_eq!(layout(&t.tracks[0]), vec![(1, 0, 14), (2, 15, 10)]);
    assert_eq!(e.drag_offset, 4);
    resize_selected_clips_right(&mut t, &mut e, 10, 1);
    assert_eq!(layout(&t.tracks[0]), vec![(1, 0, 14), (2, 15, 10)]);
    assert_eq!(e.drag_offset, 4);
    resize_selected_clips_right(&mut t, &mut e, -5, 1);
    assert_eq!(layout(&t.tracks[0]), vec![(1, 0, 5), (2, 15, 10)]);
    assert_eq!(e.drag_offset, -5);
}

#[test]
fn trim_empty_tracks_drops_outer_empty_tracks() {
    let mut t = Timeline {
        tracks: vec![
            track(vec![]),
            track(vec![clip(1, 0, 5, false)]),
            track(vec![]),
            track(vec![clip(2, 0, 5, false)]),
            track(vec![]),
        ],
    };
    trim_empty_tracks(&mut t);
    let ids: Vec<Vec<u32>> = t.tracks.iter().map(|tr| tr.clips.iter().map(|c| c.id).collect()).collect();
    assert_eq!(ids, vec![vec![1], vec![], vec![2]]);

    let mut empty = Timeline { tracks: vec![track(vec![]), track(vec![])] };
    trim_empty_tracks(&mut empty);
    assert_eq!(empty.tracks.len(), 1);
    assert!(empty.tracks[0].clips.is_empty());

    let mut none = Timeline { tracks: vec![] };
    trim_empty_tracks(&mut none);
    assert_eq!(none.tracks.len(), 1);
}

#[test]
fn change_tracks_moves_selected_clip_down() {
    let mut t = Timeline {
        tracks: vec![track(vec![clip(1, 0, 10, true)]), track(vec![clip(2, 20, 10, false)])],
    };
    let mut e = EditorState::new(4);
    change_selected_clip_tracks(&mut t, &mut e, 1);
    assert_eq!(t.tracks.len(), 1);
    assert_eq!(layout(&t.tracks[0]), vec![(1, 0, 10), (2, 20, 10)]);
    assert_eq!(e.track_offset, 1);
}

#[test]
fn change_tracks_adds_track_in_front() {
    let mut t = Timeline {
        tracks: vec![track(vec![clip(1, 3, 10, true), clip(2, 0, 4, false)])],
    };
    let mut e = EditorState::new(4);
    change_selected_clip_tracks(&mut t, &mut e, -1);
    assert_eq!(t.tracks.len(), 2);
    assert_eq!(layout(&t.tracks[0]), vec![(1, 3, 10)]);
    assert_eq!(layout(&t.tracks[1]), vec![(2, 13, 4)]);
    assert_eq!(e.track_offset, -1);
}

#[test]
fn change_tracks_refuses_overlap() {
    let mut t = Timeline {
        tracks: vec![track(vec![clip(1, 0, 10, true)]), track(vec![clip(2, 5, 10, false)])],
    };
    let before = t.clone();
    let mut e = EditorState::new(4);
    change_selected_clip_tracks(&mut t, &mut e, 1);
    assert_eq!(t, before);
    assert_eq!(e.track_offset, 0);
}

#[test]
fn insert_keyframe_before_start_moves_start() {
    let mut f = field(10, 1, vec![(10, 2, eased())]);
    assert!(insert_keyframe(&mut f, 5, PropertyValue::Float(0)));
    assert_eq!(f.local_offset_frames, 5);
    assert_eq!(f.start_value, PropertyValue::Float(0));
    assert_eq!(
        segs(&f),
        vec![
            (5, PropertyValue::Float(1), CurveInterpolation::Linear),
            (10, PropertyValue::Float(2), eased()),
        ]
    );
}

#[test]
fn insert_keyframe_at_existing_key_sets_value() {
    let mut f = field(10, 1, vec![(10, 2, eased())]);
    assert!(insert_keyframe(&mut f, 10, PropertyValue::Float(5)));
    assert_eq!(f.start_value, PropertyValue::Float(5));
    assert!(insert_keyframe(&mut f, 20, PropertyValue::Float(7)));
    assert_eq!(segs(&f), vec![(10, PropertyValue::Float(7), eased())]);
    assert_eq!(f.local_offset_frames, 10);
}

#[test]
fn insert_keyframe_inside_segment_splits_it() {
    let mut f = field(10, 1, vec![(10, 2, eased())]);
    assert!(insert_keyframe(&mut f, 15, PropertyValue::Float(9)));
    assert_eq!(
        segs(&f),
        vec![
            (5, PropertyValue::Float(9), CurveInterpolation::Linear),
            (5, PropertyValue::Float(2), eased()),
        ]
    );
}

#[test]
fn insert_keyframe_after_last_appends() {
    let mut f = field(10, 1, vec![(10, 2, eased())]);
    assert!(insert_keyframe(&mut f, 30, PropertyValue::Float(3)));
    assert_eq!(
        segs(&f),
        vec![
            (10, PropertyValue::Float(2), eased()),
            (10, PropertyValue::Float(3), CurveInterpolation::Linear),
        ]
    );
}

#[test]
fn delete_first_keyframe_moves_start() {
    let mut f = field(10, 1, vec![(10, 2, eased()), (5, 3, CurveInterpolation::Linear)]);
    delete_keyframe(&mut f, None);
    assert_eq!(f.local_offset_frames, 20);
    assert_eq!(f.start_value, PropertyValue::Float(2));
    assert_eq!(segs(&f), vec![(5, PropertyValue::Float(3), CurveInterpolation::Linear)]);

    let mut single = field(4, 1, vec![]);
    delete_keyframe(&mut single, None);
    assert_eq!(single, field(4, 1, vec![]));
}

#[test]
fn delete_keyframe_gives_frames_to_next_segment() {
    let mut f = field(10, 1, vec![(10, 2, eased()), (5, 3, CurveInterpolation::Linear)]);
    delete_keyframe(&mut f, Some(0));
    assert_eq!(f.local_offset_frames, 10);
    assert_eq!(segs(&f), vec![(15, PropertyValue::Float(3), CurveInterpolation::Linear)]);

    let mut g = field(10, 1, vec![(10, 2, eased()), (5, 3, CurveInterpolation::Linear)]);
    delete_keyframe(&mut g, Some(1));
    assert_eq!(segs(&g), vec![(10, PropertyValue::Float(2), eased())]);
}

#[test]
fn insert_then_delete_keyframe_restores_curve() {
    let original = field(10, 1, vec![(10, 2, eased())]);
    let mut f = original.clone();
    assert!(insert_keyframe(&mut f, 30, PropertyValue::Float(3)));
    delete_keyframe(&mut f, Some(1));
    assert_eq!(f, original);
}

#[test]
fn generate_iter_yields_length_values() {
    let mut g = GenerateIter::new(2, || 7u8);
    assert_eq!(g.next(), Some(7));
    assert_eq!(g.next(), Some(7));
    assert_eq!(g.next(), None);
    assert_eq!(g.next(), None);
    let mut tracks = GenerateIter::new(1, Track::default);
    assert_eq!(tracks.next().map(|t| t.clips.len()), Some(0));
    assert!(tracks.next().is_none());
}

#[test]
fn deleting_an_inserted_keyframe_restores_the_curve() {
    let original = field(10, 1, vec![(10, 2, eased())]);
    let mut inside = original.clone();
    assert!(insert_keyframe(&mut inside, 15, PropertyValue::Float(9)));
    delete_keyframe(&mut inside, Some(0));
    assert_eq!(inside, original);

    let mut before = original.clone();
    assert!(insert_keyframe(&mut before, 5, PropertyValue::Float(0)));
    delete_keyframe(&mut before, None);
    assert_eq!(before, original);
}
