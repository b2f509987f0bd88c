use atlas::clip_map::{ClipPropertyValue, EditorClipMap, PlayerClipMap};
use atlas::editor_state::{AudioCommand, EditorState};
use atlas::interactions::{ClipInteraction, KeyframeInteraction, PropertyInteraction};
use atlas::panels::{
    apply_copied_properties, apply_keyframe_interaction, apply_property_interaction, can_set_target,
    click_clip, clip_menu_action, delete_selected_clips, get_all_keyframe_positions,
    insert_target_keyframe, new_clip_slot, place_new_clip, start_inserting_schema, start_interaction,
    try_receive_target, try_start_interaction, visible_frame_range,
};
use atlas::shaders::number_entry_points;
use atlas::shader_dependencies::ShaderDependencies;
use atlas::timeline::{AnimatedProperty, AnimatedPropertyTarget};
use atlas::param_types::PropertyType as ParamType;
use atlas::perf::{CpuPerfQuery, PerfQueryRef, PerfTable};
use atlas::player::prerender_start_times;
use atlas::shaders::{get_target_name, IncludeDispatcher, ShaderManager, ShaderType};
use atlas::timeline::{
    AnimatedPropertyField, AnimationClip, Clip, ClipSource, CurveInterpolation, CurveSegment,
    PropertyDefault, PropertyGroup, PropertyValue, Timeline, Track,
};

fn clip(id: u32, offset: u32, duration: u32, selected: bool) -> Clip {
    Clip {
        id,
        name: format!("clip{}", id),
        schema: 0,
        source: ClipSource::Generator,
        offset_frames: offset,
        duration_frames: duration,
        property_groups: vec![PropertyGroup {
            defaults: vec![
                PropertyDefault { value: PropertyValue::Float(id), is_override: true },
                PropertyDefault { value: PropertyValue::Vec2(1, 2), is_override: false },
            ],
        }],
        is_selected: selected,
    }
}

fn animation_clip(id: u32, target: u32) -> Clip {
    Clip {
        source: ClipSource::Animation(AnimationClip { target_clip: target, properties: Vec::new() }),
        schema: 3,
        ..clip(id, 0, 5, false)
    }
}

#[test]
fn clip_interactions_combine_later_wins() {
    assert_eq!(ClipInteraction::Moving.and(ClipInteraction::Idle), ClipInteraction::Moving);
    assert_eq!(ClipInteraction::Idle.and(ClipInteraction::ResizingLeft), ClipInteraction::ResizingLeft);
    assert_eq!(ClipInteraction::Moving.and(ClipInteraction::ResizingRight), ClipInteraction::ResizingRight);
    let (a, b, c) = (ClipInteraction::Moving, ClipInteraction::Idle, ClipInteraction::ResizingLeft);
    assert_eq!(a.and(b).and(c), a.and(b.and(c)));
}

#[test]
fn property_and_keyframe_interactions_combine_earlier_wins() {
    assert_eq!(PropertyInteraction::Delete(1).union(PropertyInteraction::Delete(2)), PropertyInteraction::Delete(1));
    assert_eq!(PropertyInteraction::Idle.union(PropertyInteraction::Delete(2)), PropertyInteraction::Delete(2));
    assert_eq!(PropertyInteraction::Delete(4).union(PropertyInteraction::Idle), PropertyInteraction::Delete(4));
    assert_eq!(
        KeyframeInteraction::Deleted(None).union(KeyframeInteraction::Deleted(Some(3))),
        KeyframeInteraction::Deleted(None)
    );
    assert_eq!(
        KeyframeInteraction::Idle.union(KeyframeInteraction::Deleted(Some(3))),
        KeyframeInteraction::Deleted(Some(3))
    );
    let (a, b, c) = (PropertyInteraction::Idle, PropertyInteraction::Delete(7), PropertyInteraction::Delete(8));
    assert_eq!(a.union(b).union(c), a.union(b.union(c)));
}

#[test]
fn parameter_type_names() {
    assert_eq!(ParamType::from_type_str("i32"), Some(ParamType::Signed));
    assert_eq!(ParamType::from_type_str("u32"), Some(ParamType::Unsigned));
    assert_eq!(ParamType::from_type_str("f32"), Some(ParamType::Float));
    assert_eq!(ParamType::from_type_str("Vector3"), Some(ParamType::Vec3));
    assert_eq!(ParamType::from_type_str("RgbaColor"), Some(ParamType::RgbaColor));
    assert_eq!(ParamType::from_type_str("Quaternion"), Some(ParamType::Rotation));
    assert_eq!(ParamType::from_type_str("ListRef"), Some(ParamType::Reference));
    assert_eq!(ParamType::from_type_str("f64"), None);
    assert_eq!(ParamType::from_type_str("vector2"), None);
    assert_eq!(ParamType::from_type_str(""), None);
}

#[test]
fn shader_target_names_and_bytes() {
    assert_eq!(get_target_name(ShaderType::Vertex), "vs_5_0\0");
    assert_eq!(get_target_name(ShaderType::Pixel), "ps_5_0\0");
    assert_eq!(get_target_name(ShaderType::Compute), "cs_5_0\0");
    assert_eq!(ShaderType::Hull.to_byte(), 3);
    assert_eq!(ShaderType::from_byte(5), Some(ShaderType::Compute));
    assert_eq!(ShaderType::from_byte(6), None);
}

#[test]
fn include_dispatcher_includes_each_shader_once() {
    let a: &[u8] = b"a";
    let bb: &[u8] = b"bb";
    let ccc: &[u8] = b"ccc";
    let strings = [a, bb, ccc];
    let mut d = IncludeDispatcher::new(&strings, 0);
    assert_eq!(d.open_index(1), Some(bb));
    assert_eq!(d.open_index(1), None);
    assert_eq!(d.open_index(0), None);
    assert_eq!(d.open_index(2), Some(ccc));
    assert_eq!(d.visited_indices, vec![0, 1, 1, 0, 2]);
}

#[test]
fn shader_manager_hands_out_shaders_in_order() {
    let shaders = [10u32, 20, 30];
    let entry_points = [2u8, 0];
    let mut m = ShaderManager::new(&shaders, &entry_points);
    let k = m.load_shader("first.hlsl");
    assert_eq!(k, 2);
    assert_eq!(m.get_shader(k), Some(&30));
    let k = m.load_shader("second.hlsl");
    assert_eq!(k, 0);
    assert_eq!(m.get_shader(k), Some(&10));
    assert!(m.entry_points.is_empty());
}

#[test]
fn editor_transport_commands() {
    let mut e = EditorState::new(4);
    assert!(!e.is_playing());
    assert_eq!(e.play(), Some(AudioCommand::Play));
    assert_eq!(e.play(), None);
    assert!(e.is_playing());
    assert_eq!(e.pause(), Some(AudioCommand::Pause));
    assert_eq!(e.pause(), None);
    assert_eq!(e.play_pause(), Some(AudioCommand::Play));
    assert_eq!(e.play_pause(), Some(AudioCommand::Pause));
    e.update(3);
    assert_eq!(e.current_frame(), 3);
    assert_eq!(e.seek_relative(-5), AudioCommand::Seek(0));
    assert_eq!(e.seek_relative(12), AudioCommand::Seek(15));
    assert_eq!(e.seek_to_frame(99), AudioCommand::Seek(99));
}

#[test]
fn perf_table_frame_bookkeeping() {
    let mut p = PerfTable::new();
    p.begin_frame();
    let (gpu, gpu_index, create) = p.start_gpu(String::from("draw"));
    assert_eq!((gpu.query_id, gpu_index, create), (0, 0, true));
    let cpu = p.start_cpu(String::from("update"), 100);
    assert_eq!(cpu.query_id, 1);
    let cpu2 = p.start_cpu(String::from("audio"), 120);
    assert_eq!(p.end(cpu, 150), PerfQueryRef::Cpu(0));
    assert_eq!(p.cpu_queries[0], CpuPerfQuery { start_time: 100, end_time: 150 });
    assert!(p.active_queries[0].2 && !p.active_queries[1].2);
    assert_eq!(p.end(gpu, 0), PerfQueryRef::Gpu(0));
    assert_eq!(p.end(cpu2, 130), PerfQueryRef::Cpu(1));
    p.end_frame();
    assert_eq!(p.gpu_query_count, 1);
    assert_eq!(p.cpu_queries.len(), 2);
    assert_eq!(p.active_queries.len(), 3);

    // The next frame reuses the graphics-card query and uses one processor query.
    p.begin_frame();
    assert!(p.active_queries.is_empty());
    let (gpu, gpu_index, create) = p.start_gpu(String::from("draw"));
    assert_eq!((gpu.query_id, gpu_index, create), (0, 0, false));
    let cpu = p.start_cpu(String::from("update"), 200);
    assert_eq!(p.cpu_queries[0], CpuPerfQuery { start_time: 200, end_time: 150 });
    p.end(gpu, 0);
    p.end(cpu, 210);
    p.end_frame();
    assert_eq!(p.cpu_queries, vec![CpuPerfQuery { start_time: 200, end_time: 210 }]);
    assert_eq!(p.gpu_query_count, 1);
}

fn two_track_timeline() -> Timeline {
    Timeline {
        tracks: vec![
            Track { clips: vec![clip(1, 0, 10, false), clip(2, 5, 10, false)] },
            Track { clips: vec![clip(3, 12, 4, false)] },
        ],
    }
}

#[test]
fn editor_clip_map_finds_playing_clips() {
    let t = two_track_timeline();
    let m = EditorClipMap::from_timeline(&t, 13);
    assert_eq!(m.active_clips.len(), 1);
    let a = &m.active_clips[0];
    assert_eq!((a.reference, a.track_index, a.clip_index, a.local_time), (3, 1, 0, 1));
    assert_eq!(a.name, "clip3");
    assert_eq!(
        a.properties,
        vec![vec![
            ClipPropertyValue { value: PropertyValue::Float(3), is_overridden: true, targeted_by: None },
            ClipPropertyValue { value: PropertyValue::Vec2(1, 2), is_overridden: false, targeted_by: None },
        ]]
    );
    assert_eq!(m.get_clip_index(3), Some(0));
    assert_eq!(m.get_clip_index(1), None);

    let m = EditorClipMap::from_timeline(&t, 15);
    let found: Vec<(u32, usize, usize, u32)> =
        m.active_clips.iter().map(|a| (a.reference, a.track_index, a.clip_index, a.local_time)).collect();
    assert_eq!(found, vec![(2, 0, 1, 0), (3, 1, 0, 3)]);
    assert_eq!(m.get_clip_index(2), Some(0));
    assert_eq!(m.get_clip_index(3), Some(1));

    let m = EditorClipMap::from_timeline(&t, 10);
    assert!(m.active_clips.is_empty());
}

#[test]
fn player_clip_map_indexes_by_track() {
    let t = Timeline {
        tracks: vec![
            Track { clips: vec![clip(0, 0, 10, false)] },
            Track { clips: vec![clip(1, 5, 10, false)] },
            Track { clips: vec![clip(2, 20, 1, false)] },
        ],
    };
    let mut m = PlayerClipMap::new(3);
    m.update(&t, 7);
    assert_eq!(m.clip_indices, vec![Some(0), Some(1), None]);
    assert_eq!(m.get_clip_index(1), Some(1));
    assert_eq!(m.active_clips[1].local_time, 2);
    assert_eq!(
        m.active_clips[1].properties[0][0],
        ClipPropertyValue { value: PropertyValue::Float(1), is_overridden: false, targeted_by: None }
    );
    m.update(&t, 20);
    assert_eq!(m.clip_indices, vec![None, None, Some(0)]);
    assert_eq!(m.active_clips.len(), 1);
    assert_eq!(m.active_clips[0].reference, 2);
}

#[test]
fn prerender_lists_generator_starts() {
    let t = Timeline {
        tracks: vec![
            Track { clips: vec![clip(0, 0, 10, false)] },
            Track { clips: vec![clip(1, 0, 10, false)] },
            Track { clips: vec![animation_clip(2, 0)] },
            Track { clips: vec![clip(3, 30, 10, false)] },
            Track { clips: vec![clip(4, 0, 10, false)] },
        ],
    };
    assert_eq!(prerender_start_times(&t), vec![0, 30, 0]);
}

#[test]
fn inserting_opens_empty_tracks_at_both_ends() {
    let mut t = Timeline { tracks: vec![Track { clips: vec![clip(1, 0, 5, false)] }] };
    let mut e = EditorState::new(4);
    start_inserting_schema(&mut t, &mut e, 2);
    let lens: Vec<usize> = t.tracks.iter().map(|tr| tr.clips.len()).collect();
    assert_eq!(lens, vec![0, 1, 0]);
    assert_eq!(e.insert_clip_schema, Some(2));

    let mut empty = Timeline { tracks: vec![] };
    start_inserting_schema(&mut empty, &mut e, 5);
    assert_eq!(empty.tracks.len(), 1);
    assert_eq!(e.insert_clip_schema, Some(5));
}

#[test]
fn retarget_request_is_answered_once() {
    let mut e = EditorState::new(4);
    let target = clip(9, 0, 5, false);
    assert!(!can_set_target(&e, &target));
    e.retarget_clip_request = Some((0, 2));
    assert!(can_set_target(&e, &target));
    assert!(!can_set_target(&e, &animation_clip(8, 9)));
    e.retarget_clip_request = Some((1, 2));
    assert!(!can_set_target(&e, &target));

    let mut anim = animation_clip(2, 4);
    e.retarget_clip_request = Some((0, 2));
    try_receive_target(&mut e, &mut anim);
    assert_eq!(anim, animation_clip(2, 4));
    e.retarget_clip_response = Some(9);
    try_receive_target(&mut e, &mut anim);
    assert_eq!(anim, animation_clip(2, 9));
    assert_eq!(e.retarget_clip_request, None);
    assert_eq!(e.retarget_clip_response, None);
}

#[test]
fn start_interaction_resets_drag_and_collects_snapping_points() {
    let t = Timeline {
        tracks: vec![
            Track { clips: vec![clip(1, 0, 10, true)] },
            Track { clips: vec![clip(2, 20, 10, false)] },
        ],
    };
    let mut e = EditorState::new(4);
    e.drag_offset = 7;
    e.track_offset = -2;
    start_interaction(&t, &mut e);
    assert_eq!(e.drag_offset, 0);
    assert_eq!(e.track_offset, 0);
    assert_eq!(e.snapping_points, vec![-10, 0, 10, 20, 30]);
}

#[test]
fn keyframe_positions_per_field() {
    let fields = vec![
        AnimatedPropertyField {
            local_offset_frames: -2,
            start_value: PropertyValue::Float(0),
            segments: vec![
                CurveSegment { duration_frames: 4, end_value: PropertyValue::Float(1), interpolation: CurveInterpolation::Linear },
                CurveSegment { duration_frames: 6, end_value: PropertyValue::Float(2), interpolation: CurveInterpolation::Linear },
            ],
        },
        AnimatedPropertyField { local_offset_frames: 5, start_value: PropertyValue::Float(0), segments: vec![] },
    ];
    assert_eq!(get_all_keyframe_positions(&fields, 100), vec![98, 102, 108, 105]);
    assert_eq!(get_all_keyframe_positions(&[], 100), Vec::<i32>::new());
}

fn layout(t: &Track) -> Vec<(u32, u32)> {
    let mut end = 0;
    let mut out = Vec::new();
    for c in &t.clips {
        let start = end + c.offset_frames;
        end = start + c.duration_frames;
        out.push((c.id, start));
    }
    out
}

#[test]
fn delete_key_removes_selected_clips_only() {
    let mut t = Timeline {
        tracks: vec![
            Track { clips: vec![clip(1, 0, 10, true), clip(2, 5, 10, false), clip(3, 0, 5, true)] },
            Track { clips: vec![clip(4, 7, 3, true)] },
        ],
    };
    delete_selected_clips(&mut t);
    assert_eq!(layout(&t.tracks[0]), vec![(2, 15)]);
    assert!(t.tracks[1].clips.is_empty());
    assert_eq!(t.tracks.len(), 2);
}

#[test]
fn clip_menu_copies_generator_and_retargets_animation() {
    let mut e = EditorState::new(4);
    let mut g = clip(5, 0, 10, false);
    g.schema = 2;
    clip_menu_action(&mut e, &g);
    assert_eq!(e.insert_clip_schema, Some(2));
    assert_eq!(e.insert_clip_properties, Some(vec![vec![PropertyValue::Float(5), PropertyValue::Vec2(1, 2)]]));
    assert_eq!(e.retarget_clip_request, None);

    let mut e = EditorState::new(4);
    clip_menu_action(&mut e, &animation_clip(6, 5));
    assert_eq!(e.retarget_clip_request, Some((3, 6)));
    assert_eq!(e.insert_clip_schema, None);
}

#[test]
fn copied_properties_fill_as_far_as_both_go() {
    let mut c = clip(1, 0, 10, false);
    apply_copied_properties(&mut c, &vec![vec![PropertyValue::Float(42)], vec![PropertyValue::Float(7)]]);
    assert_eq!(c.property_groups[0].defaults[0].value, PropertyValue::Float(42));
    assert!(c.property_groups[0].defaults[0].is_override);
    assert_eq!(c.property_groups[0].defaults[1].value, PropertyValue::Vec2(1, 2));
    assert_eq!(c.property_groups.len(), 1);
}

#[test]
fn new_clip_slot_needs_a_pending_insertion_and_room() {
    let t = Timeline { tracks: vec![Track { clips: vec![clip(1, 0, 10, false)] }, Track { clips: vec![] }] };
    let mut e = EditorState::new(4);
    assert_eq!(new_clip_slot(&t, &e, 0, 12), None);
    e.insert_clip_schema = Some(0);
    assert_eq!(new_clip_slot(&t, &e, 0, 12), Some((0, 12)));
    assert_eq!(new_clip_slot(&t, &e, 0, 5), None);
    assert_eq!(new_clip_slot(&t, &e, 2, 5), None);
    assert_eq!(new_clip_slot(&t, &e, -1, 5), None);
    assert_eq!(new_clip_slot(&t, &e, 1, -1), None);
    assert_eq!(new_clip_slot(&t, &e, 1, 0), Some((1, 0)));
}

#[test]
fn placing_a_generator_clip() {
    let mut t = Timeline {
        tracks: vec![Track { clips: vec![] }, Track { clips: vec![clip(1, 0, 10, false)] }, Track { clips: vec![] }],
    };
    let mut e = EditorState::new(4);
    e.insert_clip_schema = Some(0);
    e.insert_clip_properties = Some(vec![vec![PropertyValue::Float(9)]]);
    e.next_clip_id = 7;
    let mut g = clip(7, 0, 1, false);
    g.name = String::from("made");
    place_new_clip(&mut t, &mut e, 1, 12, Some(g));
    assert_eq!(t.tracks.len(), 1);
    assert_eq!(layout(&t.tracks[0]), vec![(1, 0), (7, 12)]);
    let placed = &t.tracks[0].clips[1];
    assert!(placed.is_selected);
    assert_eq!(placed.property_groups[0].defaults[0].value, PropertyValue::Float(9));
    assert_eq!(e.insert_clip_schema, None);
    assert_eq!(e.insert_clip_properties, None);
    assert_eq!(e.just_inserted_clip, Some(7));
    assert_eq!(e.next_clip_id, 8);
    assert_eq!(e.snapping_points, vec![-13, -12, -3, -2]);
}

#[test]
fn placing_an_animation_clip() {
    let mut t = Timeline { tracks: vec![Track { clips: vec![clip(1, 0, 10, false)] }, Track { clips: vec![] }] };
    let mut e = EditorState::new(4);
    e.insert_animation = Some((1, 0, 0, 1, PropertyValue::Float(3), 20));
    e.next_clip_id = 4;
    place_new_clip(&mut t, &mut e, 1, 15, None);
    assert_eq!(t.tracks.len(), 2);
    let c = &t.tracks[1].clips[0];
    assert_eq!((c.id, c.offset_frames, c.duration_frames, c.schema), (4, 15, 1, 0));
    assert_eq!(c.name, "Animation");
    assert!(c.is_selected);
    match &c.source {
        ClipSource::Animation(a) => {
            assert_eq!(a.target_clip, 1);
            assert_eq!(a.properties.len(), 1);
            assert_eq!((a.properties[0].group_index, a.properties[0].property_index), (0, 1));
            match &a.properties[0].target {
                AnimatedPropertyTarget::Joined(f) => {
                    assert_eq!(f.local_offset_frames, 5);
                    assert_eq!(f.start_value, PropertyValue::Float(3));
                    assert!(f.segments.is_empty());
                }
                AnimatedPropertyTarget::Separate(_) => panic!("a new property has one curve"),
            }
        }
        ClipSource::Generator => panic!("an animation clip was placed"),
    }
    assert_eq!(e.insert_animation, None);
    assert_eq!(e.next_clip_id, 5);
}

#[test]
fn click_answers_pick_request_first() {
    let mut t = Timeline { tracks: vec![Track { clips: vec![clip(1, 0, 10, false), clip(2, 0, 5, false)] }] };
    let mut e = EditorState::new(4);
    e.select_clip_request = Some(77);
    click_clip(&mut t, &mut e, 0, 1, true);
    assert_eq!(e.select_clip_response, Some(2));
    assert!(!t.tracks[0].clips[1].is_selected);
    // Once answered, a click selects the clip and starts a drag.
    e.drag_offset = 3;
    click_clip(&mut t, &mut e, 0, 1, true);
    assert!(t.tracks[0].clips[1].is_selected);
    assert_eq!(e.drag_offset, 0);
}

#[test]
fn click_gives_retarget_response_and_adds_pending_property() {
    let mut t = Timeline {
        tracks: vec![Track { clips: vec![clip(1, 0, 10, false), animation_clip(2, 1)] }],
    };
    let mut e = EditorState::new(4);
    e.retarget_clip_request = Some((0, 9));
    e.insert_animation = Some((1, 0, 0, 0, PropertyValue::Float(6), 14));
    click_clip(&mut t, &mut e, 0, 0, true);
    assert_eq!(e.retarget_clip_response, Some(1));
    assert!(t.tracks[0].clips[0].is_selected);

    // The animation clip starts at frame 10 and animates clip 1: it takes the property.
    click_clip(&mut t, &mut e, 0, 1, true);
    assert_eq!(e.insert_animation, None);
    match &t.tracks[0].clips[1].source {
        ClipSource::Animation(a) => {
            assert_eq!(a.properties.len(), 1);
            match &a.properties[0].target {
                AnimatedPropertyTarget::Joined(f) => assert_eq!(f.local_offset_frames, 4),
                AnimatedPropertyTarget::Separate(_) => panic!("a new property has one curve"),
            }
        }
        ClipSource::Generator => panic!("still an animation clip"),
    }
    assert!(!t.tracks[0].clips[1].is_selected);
}

#[test]
fn press_without_click_changes_nothing() {
    let mut t = Timeline { tracks: vec![Track { clips: vec![clip(1, 0, 10, false)] }] };
    let mut e = EditorState::new(4);
    e.drag_offset = 5;
    try_start_interaction(&mut t, 0, 0, &mut e, false, true);
    assert!(!t.tracks[0].clips[0].is_selected);
    assert_eq!(e.drag_offset, 5);
    try_start_interaction(&mut t, 0, 0, &mut e, true, true);
    assert!(t.tracks[0].clips[0].is_selected);
    assert_eq!(e.drag_offset, 0);
}

#[test]
fn keyframe_goes_on_every_separate_curve() {
    let field = |offset: i32| AnimatedPropertyField {
        local_offset_frames: offset,
        start_value: PropertyValue::Float(0),
        segments: vec![CurveSegment { duration_frames: 10, end_value: PropertyValue::Float(1), interpolation: CurveInterpolation::Linear }],
    };
    let mut target = AnimatedPropertyTarget::Separate(vec![field(0), field(20)]);
    assert!(insert_target_keyframe(&mut target, 5, PropertyValue::Float(9)));
    match &target {
        AnimatedPropertyTarget::Separate(fs) => {
            let segs: Vec<Vec<u32>> = fs.iter().map(|f| f.segments.iter().map(|s| s.duration_frames).collect()).collect();
            assert_eq!(segs, vec![vec![5, 5], vec![15, 10]]);
            assert_eq!(fs[1].local_offset_frames, 5);
        }
        AnimatedPropertyTarget::Joined(_) => panic!("still separate"),
    }
}

#[test]
fn interactions_are_carried_out() {
    let prop = |g: usize| AnimatedProperty {
        group_index: g,
        property_index: 0,
        target: AnimatedPropertyTarget::Joined(AnimatedPropertyField {
            local_offset_frames: 0,
            start_value: PropertyValue::Float(0),
            segments: vec![],
        }),
        is_collapsed: false,
    };
    let mut a = AnimationClip { target_clip: 1, properties: vec![prop(0), prop(1), prop(2)] };
    apply_property_interaction(&mut a, PropertyInteraction::Idle);
    assert_eq!(a.properties.len(), 3);
    apply_property_interaction(&mut a, PropertyInteraction::Delete(1));
    let groups: Vec<usize> = a.properties.iter().map(|p| p.group_index).collect();
    assert_eq!(groups, vec![0, 2]);

    let mut f = AnimatedPropertyField {
        local_offset_frames: 2,
        start_value: PropertyValue::Float(0),
        segments: vec![
            CurveSegment { duration_frames: 3, end_value: PropertyValue::Float(1), interpolation: CurveInterpolation::Linear },
            CurveSegment { duration_frames: 4, end_value: PropertyValue::Float(2), interpolation: CurveInterpolation::Linear },
        ],
    };
    apply_keyframe_interaction(&mut f, KeyframeInteraction::Deleted(Some(0)));
    assert_eq!(f.segments.len(), 1);
    assert_eq!(f.segments[0].duration_frames, 7);
    apply_keyframe_interaction(&mut f, KeyframeInteraction::Deleted(None));
    assert_eq!(f.local_offset_frames, 9);
    assert!(f.segments.is_empty());
}

#[test]
fn visible_range_spans_all_clips() {
    assert_eq!(visible_frame_range(&[(10, 5), (3, 4), (20, 1)]), (3, 21));
    assert_eq!(visible_frame_range(&[]), (u32::MAX, 0));
}

#[test]
fn entry_points_are_numbered_by_first_load() {
    let journal = vec![
        (ShaderType::Vertex, String::from("a.hlsl")),
        (ShaderType::Pixel, String::from("a.hlsl")),
        (ShaderType::Vertex, String::from("a.hlsl")),
        (ShaderType::Pixel, String::from("b.hlsl")),
        (ShaderType::Pixel, String::from("a.hlsl")),
    ];
    let (creation, firsts) = number_entry_points(&journal);
    assert_eq!(creation, vec![0, 1, 0, 2, 1]);
    assert_eq!(firsts, vec![0, 1, 3]);
    let (creation, firsts) = number_entry_points(&[]);
    assert!(creation.is_empty() && firsts.is_empty());
}

#[test]
fn shader_dependencies_follow_changed_files() {
    let mut d = ShaderDependencies::new();
    assert_eq!(d.add_shader(), 0);
    assert_eq!(d.add_shader(), 1);
    let a = String::from("common.hlsl");
    let b = String::from("blur.hlsl");
    assert_eq!(d.find(&a), None);
    let ia = d.add_dependency(a.clone(), String::from("A"));
    assert_eq!(d.record_read(0, ia), "A");
    let ib = d.add_dependency(b.clone(), String::from("B"));
    assert_eq!(d.record_read(0, ib), "B");
    assert_eq!(d.record_read(1, ib), "B");
    assert_eq!(d.record_read(1, ib), "B");
    assert_eq!(d.find(&b), Some(1));
    assert_eq!(d.dependencies[1].depended_by, vec![0, 1]);
    assert_eq!(d.depends_on[1], vec![b.clone(), b.clone()]);

    // The blur file changed: both shaders read it, and its cached contents go.
    let rebuild = d.changed_shaders(&vec![b.clone(), String::from("other.hlsl")]);
    assert_eq!(rebuild, vec![0, 1]);
    assert_eq!(d.find(&b), None);
    assert_eq!(d.find(&a), Some(0));

    let mut gc = Vec::new();
    d.forget_shader(0, &mut gc);
    assert_eq!(gc, vec![a.clone()]);
    assert!(d.depends_on[0].is_empty());
    d.forget_shader(1, &mut gc);
    assert_eq!(gc, vec![a.clone()]);

    // Shader 1 is built again and reads the new blur file only.
    let ib = d.add_dependency(b.clone(), String::from("B2"));
    assert_eq!(d.record_read(1, ib), "B2");
    d.collect_garbage(&gc);
    assert_eq!(d.find(&a), None);
    assert_eq!(d.find(&b), Some(0));
    assert_eq!(d.dependencies[0].depended_by, vec![1]);
}
