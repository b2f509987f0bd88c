use atlas::clip_map::{ClipPropertyValue, PlayerClipMap};
use atlas::deserializer::stream::Stream;
use atlas::editor_state::{AudioCommand, EditorState};
use atlas::interactions::ClipInteraction;
use atlas::panels::{drag_step, property_row_event, seek_target, seek_to_keyframe, DragStep, PropertyEvent};
use atlas::param_list::{schema_from_fields, FieldDesc, FieldPart, SchemaProperty};
use atlas::param_types::PropertyType;
use atlas::shader_dependencies::ShaderDependencies;
use atlas::shader_includes::{
    fill_shader, fix_separators, include_spans, reserve_shader, rewrite_includes, ShaderStrings,
};
use atlas::shaders::{read_shader_table, write_shader_table, ShaderType};
use atlas::timeline::{
    AnimatedPropertyField, Clip, ClipSource, CurveInterpolation, CurveSegment, PropertyDefault,
    PropertyValue, Timeline, Track,
};
use atlas::timeline_interactions::{change_selected_clip_tracks, move_selected_clips, GenerateIter};

fn spans(src: &[u8]) -> Vec<(usize, usize, String)> {
    include_spans(src)
        .into_iter()
        .map(|(a, b, p)| (a, b, String::from_utf8(p).unwrap()))
        .collect()
}

#[test]
fn include_spans_find_each_directive() {
    let src = b"#include \"a.hlsl\"\nfloat x;\n#include\t\"dir/b.hlsl\"\n";
    assert_eq!(spans(src), vec![(0, 17, "a.hlsl".to_string()), (27, 48, "dir/b.hlsl".to_string())]);
}

#[test]
fn include_spans_take_the_last_quote_of_the_line() {
    let src = b"#include \"a\" // \"b\"\nx";
    assert_eq!(spans(src), vec![(0, 19, "a\" // \"b".to_string())]);
}

#[test]
fn include_spans_skip_unclosed_and_bare_directives() {
    assert_eq!(spans(b"#include \"a\n\"b\""), vec![]);
    assert_eq!(spans(b"#include <a.h>"), vec![]);
    assert_eq!(spans(b"#includ \"a\""), vec![]);
    assert_eq!(spans(b""), vec![]);
}

#[test]
fn include_spans_allow_white_space_across_lines_and_unicode() {
    // White space, line feeds included, may stand between the keyword and the quote.
    assert_eq!(spans(b"#include \n \"x\""), vec![(0, 14, "x".to_string())]);
    // A no-break space (U+00A0) is white space too.
    let src = "#include\u{a0}\"y\"".as_bytes();
    assert_eq!(spans(src), vec![(0, 13, "y".to_string())]);
}

#[test]
fn rewrite_includes_names_slots() {
    let src = b"A #include  \"a.hlsl\"\nB #include \"b\" C";
    let found = include_spans(src);
    let out = rewrite_includes(src, &found, &vec![3, 12]);
    assert_eq!(out, b"A #include \"3\"\nB #include \"12\" C".to_vec());
    // On one line, the path runs to the last quote: one directive.
    let one_line = b"A #include \"a\" B #include \"b\" C";
    let found = include_spans(one_line);
    assert_eq!(found.len(), 1);
    assert_eq!(rewrite_includes(one_line, &found, &vec![5]), b"A #include \"5\" C".to_vec());
}

#[test]
fn rewrite_without_includes_keeps_source() {
    let src = b"float4 main() : SV_Target { return 1; }";
    let found = include_spans(src);
    assert_eq!(rewrite_includes(src, &found, &vec![]), src.to_vec());
}

#[test]
fn reserve_then_fill_gives_each_source_one_slot() {
    let mut s = ShaderStrings::new();
    let a = b"#include \"b\"".to_vec();
    let b = b"b".to_vec();
    assert_eq!(reserve_shader(&mut s, &a), Ok(0));
    // The slot is reserved before the includes are processed; a source that includes the
    // first one back finds it already there.
    assert_eq!(reserve_shader(&mut s, &b), Ok(1));
    assert_eq!(reserve_shader(&mut s, &a), Err(0));
    assert_eq!(s.strings, vec![Vec::<u8>::new(), Vec::new()]);
    fill_shader(&mut s, 1, b"done".to_vec());
    assert_eq!(s.strings, vec![Vec::<u8>::new(), b"done".to_vec()]);
    assert_eq!(reserve_shader(&mut s, &b), Err(1));
    assert_eq!(s.sources, vec![a, b]);
}

#[test]
fn fix_separators_turns_slashes() {
    assert_eq!(fix_separators(b"a/b/c.hlsl"), b"a\\b\\c.hlsl".to_vec());
}

#[test]
fn exported_shaders_read_back_with_rewritten_includes() {
    // Two entry points share an include.
    let mut s = ShaderStrings::new();
    let common = b"float k;".to_vec();
    let vs = b"#include \"common.hlsl\"\nvs".to_vec();
    let ps = b"#include \"common.hlsl\"\nps".to_vec();
    let vs_slot = reserve_shader(&mut s, &vs).unwrap();
    let common_slot = reserve_shader(&mut s, &common).unwrap();
    fill_shader(&mut s, common_slot, common.clone());
    let vs_spans = include_spans(&vs);
    fill_shader(&mut s, vs_slot, rewrite_includes(&vs, &vs_spans, &vec![common_slot]));
    let ps_slot = reserve_shader(&mut s, &ps).unwrap();
    assert_eq!(reserve_shader(&mut s, &common), Err(common_slot));
    let ps_spans = include_spans(&ps);
    fill_shader(&mut s, ps_slot, rewrite_includes(&ps, &ps_spans, &vec![common_slot]));
    let mut buf = Vec::new();
    write_shader_table(
        &mut buf,
        &vec![0, 1],
        &vec![ShaderType::Vertex, ShaderType::Pixel],
        &vec![vs_slot as u8, ps_slot as u8],
        &s.strings,
    );
    let mut stream = Stream::new(&buf);
    let table = read_shader_table(&mut stream).unwrap();
    assert_eq!(table.strings.len(), 3);
    assert_eq!(table.strings[0], b"#include \"1\"\nvs");
    assert_eq!(table.strings[1], b"float k;");
    assert_eq!(table.strings[2], b"#include \"1\"\nps");
    assert_eq!(table.entry_point_types, vec![ShaderType::Vertex, ShaderType::Pixel]);
    assert_eq!(stream.len(), 0);
}

#[test]
fn reads_leave_the_unread_suffix() {
    let bytes = [1u8, 2, 3, 4, 5, 6, 7, 8, 9];
    let mut s = Stream::new(&bytes);
    s.read_u8();
    s.read_u16();
    let sub = s.substream(2);
    assert_eq!(sub.as_slice(), &[4, 5]);
    s.seek(1);
    assert_eq!(s.as_slice(), &bytes[6..]);
}

#[test]
fn generate_iter_gives_its_count_then_none() {
    let mut g = GenerateIter::new(3, || 5u32);
    assert_eq!(g.size_hint(), (3, Some(3)));
    assert_eq!(g.next(), Some(5));
    assert_eq!(g.size_hint(), (2, Some(2)));
    assert_eq!(g.next(), Some(5));
    assert_eq!(g.next(), Some(5));
    assert_eq!(g.next(), None);
    assert_eq!(g.next(), None);
    assert_eq!(g.size_hint(), (0, Some(0)));
}

#[test]
fn build_lists_what_a_shader_read() {
    let mut d = ShaderDependencies::new();
    let s = d.add_shader();
    let a = d.add_dependency("a.hlsl".to_string(), "A".to_string());
    let b = d.add_dependency("b.hlsl".to_string(), "B".to_string());
    assert_eq!(d.record_read(s, b), "B");
    assert_eq!(d.record_read(s, a), "A");
    assert_eq!(d.depends_on[s], vec!["b.hlsl".to_string(), "a.hlsl".to_string()]);
    assert_eq!(d.dependencies[a].depended_by, vec![s]);
    assert_eq!(d.dependencies[b].depended_by, vec![s]);
}

fn clip(id: u32, offset: u32, duration: u32, selected: bool) -> Clip {
    Clip {
        id,
        name: format!("clip{}", id),
        schema: 0,
        source: ClipSource::Generator,
        offset_frames: offset,
        duration_frames: duration,
        property_groups: Vec::new(),
        is_selected: selected,
    }
}

fn starts(t: &Track) -> Vec<(u32, u32, u32)> {
    let mut end = 0;
    t.clips
        .iter()
        .map(|c| {
            let start = end + c.offset_frames;
            end = start + c.duration_frames;
            (c.id, start, c.duration_frames)
        })
        .collect()
}

#[test]
fn moving_a_zero_length_clip() {
    let mut t = Timeline { tracks: vec![Track { clips: vec![clip(1, 2, 0, true), clip(2, 3, 4, false)] }] };
    let mut e = EditorState::new(4);
    move_selected_clips(&mut t, &mut e, 1);
    assert_eq!(starts(&t.tracks[0]), vec![(1, 3, 0), (2, 5, 4)]);
    assert_eq!(e.drag_offset, 1);
}

#[test]
fn retracking_a_zero_length_clip() {
    let mut t = Timeline {
        tracks: vec![Track { clips: vec![clip(1, 2, 0, true)] }, Track { clips: vec![clip(2, 5, 4, false)] }],
    };
    let mut e = EditorState::new(4);
    change_selected_clip_tracks(&mut t, &mut e, 1);
    let layouts: Vec<Vec<(u32, u32, u32)>> = t.tracks.iter().map(starts).filter(|l| !l.is_empty()).collect();
    assert_eq!(layouts, vec![vec![(1, 2, 0), (2, 5, 4)]]);
    assert_eq!(e.track_offset, 1);
}

#[test]
fn player_clips_come_in_track_order() {
    let t = Timeline {
        tracks: vec![
            Track { clips: vec![clip(0, 0, 10, false)] },
            Track { clips: vec![clip(1, 50, 10, false)] },
            Track { clips: vec![clip(2, 0, 10, false)] },
            Track { clips: vec![clip(3, 5, 10, false)] },
        ],
    };
    let mut m = PlayerClipMap::new(4);
    m.update(&t, 6);
    let order: Vec<usize> = m.active_clips.iter().map(|c| c.track_index).collect();
    assert_eq!(order, vec![0, 2, 3]);
}

#[test]
fn seek_target_picks_nearest_keyframe_on_each_side() {
    let keys = vec![30, 10, 50, 20];
    assert_eq!(seek_target(&keys, 25, false), Some(20));
    assert_eq!(seek_target(&keys, 25, true), Some(30));
    assert_eq!(seek_target(&keys, 20, false), Some(10));
    assert_eq!(seek_target(&keys, 10, false), None);
    assert_eq!(seek_target(&keys, 50, true), None);
    assert_eq!(seek_target(&vec![], 0, true), None);
}

#[test]
fn seek_to_keyframe_asks_the_audio_player() {
    let field = AnimatedPropertyField {
        local_offset_frames: 0,
        start_value: PropertyValue::Float(0),
        segments: vec![
            CurveSegment { duration_frames: 10, end_value: PropertyValue::Float(1), interpolation: CurveInterpolation::Linear },
            CurveSegment { duration_frames: 10, end_value: PropertyValue::Float(2), interpolation: CurveInterpolation::Linear },
        ],
    };
    let mut e = EditorState::new(4);
    e.current_frame = 115;
    // Keyframes at 100, 110 and 120 in a clip starting at frame 100.
    assert_eq!(seek_to_keyframe(&[field.clone()], 100, &e, false), Some(AudioCommand::Seek(110)));
    assert_eq!(seek_to_keyframe(&[field.clone()], 100, &e, true), Some(AudioCommand::Seek(120)));
    e.current_frame = 120;
    assert_eq!(seek_to_keyframe(&[field], 100, &e, true), None);
}

fn driven(value: PropertyValue, overridden: bool) -> Option<ClipPropertyValue> {
    Some(ClipPropertyValue { value, is_overridden: overridden, targeted_by: Some(9) })
}

#[test]
fn override_box_switches_a_driven_property() {
    let mut prop = PropertyDefault { value: PropertyValue::Float(1), is_override: false };
    let mut e = EditorState::new(4);
    let r = property_row_event(&mut prop, driven(PropertyValue::Float(7), false), 3, 0, 0, 0, PropertyEvent::OverrideBox, &mut e);
    assert_eq!(r, None);
    assert_eq!(prop, PropertyDefault { value: PropertyValue::Float(7), is_override: true });
    // Not driven: the box does nothing.
    let mut prop2 = PropertyDefault { value: PropertyValue::Float(1), is_override: false };
    property_row_event(&mut prop2, None, 3, 0, 0, 0, PropertyEvent::OverrideBox, &mut e);
    assert_eq!(prop2, PropertyDefault { value: PropertyValue::Float(1), is_override: false });
}

#[test]
fn keyframe_button_keys_the_animation_or_starts_one() {
    let mut prop = PropertyDefault { value: PropertyValue::Float(1), is_override: false };
    let mut e = EditorState::new(4);
    e.current_frame = 40;
    let r = property_row_event(&mut prop, driven(PropertyValue::Float(7), false), 3, 2, 1, 4, PropertyEvent::KeyframeButton, &mut e);
    assert_eq!(r, Some((9, 3, 1, 4, PropertyValue::Float(7))));
    assert!(e.insert_animation.is_none());
    let r = property_row_event(&mut prop, None, 3, 2, 1, 4, PropertyEvent::KeyframeButton, &mut e);
    assert_eq!(r, None);
    assert_eq!(e.insert_animation, Some((3, 2, 1, 4, PropertyValue::Float(1), 40)));
}

#[test]
fn editing_a_driven_property_overrides_it() {
    let mut prop = PropertyDefault { value: PropertyValue::Float(1), is_override: false };
    let mut e = EditorState::new(4);
    property_row_event(&mut prop, driven(PropertyValue::Float(7), false), 3, 0, 0, 0, PropertyEvent::Edit(PropertyValue::Float(8)), &mut e);
    assert_eq!(prop, PropertyDefault { value: PropertyValue::Float(8), is_override: true });
}

#[test]
fn reference_field_picks_and_clears_a_clip() {
    let mut prop = PropertyDefault { value: PropertyValue::ClipReference(None), is_override: false };
    let mut e = EditorState::new(4);
    property_row_event(&mut prop, None, 3, 0, 0, 0, PropertyEvent::ReferenceField(77, true, false), &mut e);
    assert_eq!(e.select_clip_request, Some(77));
    assert_eq!(prop.value, PropertyValue::ClipReference(None));
    e.select_clip_response = Some(12);
    property_row_event(&mut prop, None, 3, 0, 0, 0, PropertyEvent::ReferenceField(77, false, false), &mut e);
    assert_eq!(prop.value, PropertyValue::ClipReference(Some(12)));
    assert_eq!(e.select_clip_request, None);
    assert_eq!(e.select_clip_response, None);
    property_row_event(&mut prop, None, 3, 0, 0, 0, PropertyEvent::ReferenceField(77, false, true), &mut e);
    assert_eq!(prop.value, PropertyValue::ClipReference(None));
    // A second left click withdraws the request.
    property_row_event(&mut prop, None, 3, 0, 0, 0, PropertyEvent::ReferenceField(77, true, false), &mut e);
    property_row_event(&mut prop, None, 3, 0, 0, 0, PropertyEvent::ReferenceField(77, true, false), &mut e);
    assert_eq!(e.select_clip_request, None);
}

fn field(name: &str, ty: &str, public: bool, pragma: Option<&str>) -> FieldDesc {
    FieldDesc { name: name.to_string(), ty_name: ty.to_string(), is_public: public, pragma: pragma.map(|p| p.to_string()) }
}

#[test]
fn schema_lists_properties_pragmas_and_dependencies() {
    let fields = vec![
        field("scale", "f32", true, Some("size")),
        field("cache", "u32", false, None),
        field("model", "Matrix4", true, Some("transform")),
        field("target", "ListRef", true, None),
    ];
    let s = schema_from_fields(&fields).ok().unwrap();
    assert_eq!(
        s.properties,
        vec![
            SchemaProperty { field: 0, part: FieldPart::Whole, ty: PropertyType::Float },
            SchemaProperty { field: 2, part: FieldPart::Translate, ty: PropertyType::Vec3 },
            SchemaProperty { field: 2, part: FieldPart::Rotate, ty: PropertyType::Rotation },
            SchemaProperty { field: 2, part: FieldPart::Scale, ty: PropertyType::Vec3 },
            SchemaProperty { field: 3, part: FieldPart::Whole, ty: PropertyType::Reference },
        ]
    );
    let pragmas: Vec<(String, usize)> = s.pragmas.iter().map(|p| (p.name.clone(), p.property)).collect();
    assert_eq!(
        pragmas,
        vec![("size".to_string(), 0), ("translation".to_string(), 1), ("rotation".to_string(), 2), ("scale".to_string(), 3)]
    );
    assert_eq!(s.dependencies, vec![4]);
    assert_eq!(s.transforms, vec![2]);
}

#[test]
fn schema_refuses_an_unknown_public_type() {
    let fields = vec![field("a", "f32", true, None), field("b", "String", false, None), field("c", "bool", true, None)];
    assert_eq!(schema_from_fields(&fields).err(), Some(2));
    // A transform field ignores pragmas other than `transform`.
    let s = schema_from_fields(&vec![field("m", "Matrix4", true, Some("other"))]).ok().unwrap();
    assert!(s.pragmas.is_empty());
}

#[test]
fn first_build_list_is_not_kept() {
    let mut d = ShaderDependencies::new();
    let s = d.add_shader();
    let a = d.add_dependency("a.hlsl".to_string(), "A".to_string());
    d.record_read(s, a);
    d.end_first_build(s);
    assert!(d.depends_on[s].is_empty());
    assert_eq!(d.dependencies[a].depended_by, vec![s]);
    // Forgetting the shader before a rebuild leaves the file listing it.
    let mut gc = Vec::new();
    d.forget_shader(s, &mut gc);
    assert_eq!(d.dependencies[a].depended_by, vec![s]);
    assert!(gc.is_empty());
    // A rebuild's list is kept, and forgetting it then takes the shader off the file.
    d.record_read(s, a);
    d.forget_shader(s, &mut gc);
    assert!(d.dependencies[a].depended_by.is_empty());
    assert_eq!(gc, vec!["a.hlsl".to_string()]);
}

#[test]
fn drag_step_snaps_and_names_the_edit() {
    let points = vec![0, 20, 40];
    assert_eq!(drag_step(ClipInteraction::Idle, 18, 1, &points, 5, 3), DragStep::Nothing);
    assert_eq!(drag_step(ClipInteraction::Moving, 18, 1, &points, 5, 3), DragStep::Move(20, 1));
    assert_eq!(drag_step(ClipInteraction::ResizingLeft, 30, 0, &points, 5, 3), DragStep::ResizeLeft(30, 3));
    assert_eq!(drag_step(ClipInteraction::ResizingRight, 37, 0, &points, 5, 3), DragStep::ResizeRight(40, 3));
    assert_eq!(drag_step(ClipInteraction::Moving, 18, -2, &points, 0, 3), DragStep::Move(18, -2));
}
