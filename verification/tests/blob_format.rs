use atlas::binary_writer::Vector2;
use atlas::deserializer::stream::Stream;
use atlas::deserializer::timeline::{
    deserialize_timeline, AnimationClipStream, AnimationFieldStream, AnimationPropertyStream,
    ClipStream, GeneratorSchema, SchemaGroup, SegmentStream,
};
use atlas::exporter::export_timeline;
use atlas::shaders::{read_shader_table, write_shader_table, ShaderType};
use atlas::timeline::{
    AnimatedProperty, AnimatedPropertyField, AnimatedPropertyTarget, AnimationClip, Clip,
    ClipSource, CubicBezier, CurveInterpolation, CurveSegment, PropertyDefault, PropertyGroup,
    PropertyType, PropertyValue, Timeline, Track,
};

fn generator_clip(id: u32, offset: u32, duration: u32, value: PropertyValue) -> Clip {
    Clip {
        id,
        name: String::from("gen"),
        schema: 0,
        source: ClipSource::Generator,
        offset_frames: offset,
        duration_frames: duration,
        property_groups: vec![PropertyGroup {
            defaults: vec![PropertyDefault { value, is_override: false }],
        }],
        is_selected: false,
    }
}

fn float_schema() -> Vec<GeneratorSchema> {
    vec![GeneratorSchema {
        groups: vec![SchemaGroup { properties: vec![PropertyType::Float] }],
    }]
}

#[test]
fn write_appends_little_endian_bytes() {
    let mut buf = Vec::new();
    atlas::binary_writer::write(&mut buf, 0x1234_5678u32);
    atlas::binary_writer::write(&mut buf, 7u8);
    atlas::binary_writer::write(&mut buf, -2i16);
    atlas::binary_writer::write(&mut buf, Vector2 { x: 1, y: 0x0100 });
    assert_eq!(buf, vec![0x78, 0x56, 0x34, 0x12, 7, 0xfe, 0xff, 1, 0, 0, 0, 0, 1, 0, 0]);
}

#[test]
fn stream_reads_back_written_scalars() {
    let mut buf = Vec::new();
    atlas::binary_writer::write(&mut buf, 0xdead_beefu32);
    atlas::binary_writer::write(&mut buf, -5i32);
    atlas::binary_writer::write(&mut buf, 300u16);
    atlas::binary_writer::write(&mut buf, 3u32);
    buf.extend_from_slice(&[9, 8, 7, 6]);
    let mut s = Stream::new(&buf);
    assert_eq!(s.read_u32(), 0xdead_beef);
    assert_eq!(s.read_i32(), -5);
    assert_eq!(s.read_u16(), 300);
    let sub = s.read_substream();
    assert_eq!(sub.as_slice(), &[9, 8, 7]);
    assert_eq!(s.as_slice(), &[6]);
}

#[test]
fn substream_of_reads_values_in_order() {
    let bytes = [1u8, 0, 2, 0, 3, 0, 9];
    let mut s = Stream::new(&bytes);
    let v: Vec<u16> = s.substream_of(3);
    assert_eq!(v, vec![1, 2, 3]);
    assert_eq!(s.len(), 1);
}

#[test]
fn clip_stream_splits_columns() {
    let bytes: Vec<u8> = (0u8..20).collect();
    let cs = ClipStream::new(Stream::new(&bytes), 2);
    assert_eq!(cs.start_times.as_slice(), &bytes[0..8]);
    assert_eq!(cs.durations.as_slice(), &bytes[8..16]);
    assert_eq!(cs.types.as_slice(), &bytes[16..20]);
    let acs = AnimationClipStream::new(Stream::new(&bytes), 3);
    assert_eq!(acs.targets.as_slice(), &bytes[0..3]);
    assert_eq!(acs.schemas.as_slice(), &bytes[3..6]);
    assert_eq!(acs.num_props.as_slice(), &bytes[6..20]);
    let aps = AnimationPropertyStream::new(Stream::new(&bytes), 1);
    assert_eq!(aps.target_groups.as_slice(), &bytes[0..1]);
    assert_eq!(aps.target_props.as_slice(), &bytes[1..2]);
    assert_eq!(aps.num_fields.as_slice(), &bytes[2..20]);
    let afs = AnimationFieldStream::new(Stream::new(&bytes), 2);
    assert_eq!(afs.local_offsets.as_slice(), &bytes[0..8]);
    assert_eq!(afs.num_segments.as_slice(), &bytes[8..20]);
    let ss = SegmentStream::new(Stream::new(&bytes), 4);
    assert_eq!(ss.durations.as_slice(), &bytes[0..16]);
    assert_eq!(ss.interpolations.as_slice(), &bytes[16..20]);
}

#[test]
fn export_of_one_generator_clip() {
    let t = Timeline {
        tracks: vec![Track { clips: vec![generator_clip(7, 3, 5, PropertyValue::Float(0x3f80_0000))] }],
    };
    let mut buf = Vec::new();
    export_timeline(&t, &mut buf);
    let expected: Vec<u8> = vec![
        8, 0, 0, 0, // project duration
        1, 9, 0, 0, 0, 3, 0, 0, 0, 5, 0, 0, 0, 0, // clips: start 3, duration 5, schema 0
        0, 0, 0, 0, 0, // animation clips
        0, 0, 0, 0, 0, // animated properties
        0, 0, 0, 0, 0, // curves
        0, 0, 0, 0, 0, // segments
        4, 0, 0, 0, 0x00, 0x00, 0x80, 0x3f, // first value column
        0, 0, 0, 0, 0, 0, 0, 0, 0, 0, 0, 0,
    ];
    assert_eq!(buf, expected);
}

#[test]
fn exported_timeline_loads_back() {
    let anim = Clip {
        id: 20,
        name: String::from("anim"),
        schema: 0,
        source: ClipSource::Animation(AnimationClip {
            target_clip: 10,
            properties: vec![AnimatedProperty {
                group_index: 0,
                property_index: 0,
                target: AnimatedPropertyTarget::Joined(AnimatedPropertyField {
                    local_offset_frames: -1,
                    start_value: PropertyValue::Float(5),
                    segments: vec![
                        CurveSegment {
                            duration_frames: 4,
                            end_value: PropertyValue::Float(6),
                            interpolation: CurveInterpolation::Linear,
                        },
                        CurveSegment {
                            duration_frames: 2,
                            end_value: PropertyValue::Float(7),
                            interpolation: CurveInterpolation::CubicBezier(CubicBezier {
                                c1: Vector2 { x: 1, y: 2 },
                                c2: Vector2 { x: 3, y: 4 },
                            }),
                        },
                    ],
                }),
                is_collapsed: true,
            }],
        }),
        offset_frames: 2,
        duration_frames: 6,
        property_groups: vec![],
        is_selected: true,
    };
    let t = Timeline {
        tracks: vec![
            Track { clips: vec![generator_clip(10, 0, 10, PropertyValue::Float(11))] },
            Track { clips: vec![anim] },
        ],
    };
    let mut buf = Vec::new();
    export_timeline(&t, &mut buf);
    let schemas = float_schema();
    let mut s = Stream::new(&buf);
    let (duration, loaded) = deserialize_timeline(&mut s, &schemas).unwrap();
    assert_eq!(duration, 10);
    assert_eq!(s.len(), 0);
    assert_eq!(loaded.tracks.len(), 2);
    let g = &loaded.tracks[0].clips[0];
    assert_eq!(g.id, 0);
    assert_eq!(g.offset_frames, 0);
    assert_eq!(g.duration_frames, 20);
    assert_eq!(g.property_groups[0].defaults[0].value, PropertyValue::Float(11));
    let a = &loaded.tracks[1].clips[0];
    assert_eq!(a.id, 1);
    assert_eq!(a.offset_frames, 4);
    assert_eq!(a.duration_frames, 12);
    match &a.source {
        ClipSource::Animation(ac) => {
            assert_eq!(ac.target_clip, 0);
            assert_eq!(ac.properties.len(), 1);
            match &ac.properties[0].target {
                AnimatedPropertyTarget::Joined(f) => {
                    assert_eq!(f.local_offset_frames, -2);
                    assert_eq!(f.start_value, PropertyValue::Float(5));
                    assert_eq!(f.segments.len(), 2);
                    assert_eq!(f.segments[0].duration_frames, 8);
                    assert_eq!(f.segments[1].duration_frames, 4);
                    assert_eq!(f.segments[1].end_value, PropertyValue::Float(7));
                    assert_eq!(
                        f.segments[1].interpolation,
                        CurveInterpolation::CubicBezier(CubicBezier {
                            c1: Vector2 { x: 1, y: 2 },
                            c2: Vector2 { x: 3, y: 4 },
                        })
                    );
                }
                _ => panic!("expected a joined curve"),
            }
        }
        _ => panic!("expected an animation clip"),
    }
}

#[test]
fn overridden_property_is_not_exported() {
    let mut target = generator_clip(1, 0, 4, PropertyValue::Float(1));
    target.property_groups[0].defaults[0].is_override = true;
    let anim = Clip {
        id: 2,
        name: String::new(),
        schema: 0,
        source: ClipSource::Animation(AnimationClip {
            target_clip: 1,
            properties: vec![AnimatedProperty {
                group_index: 0,
                property_index: 0,
                target: AnimatedPropertyTarget::Joined(AnimatedPropertyField {
                    local_offset_frames: 0,
                    start_value: PropertyValue::Float(9),
                    segments: vec![],
                }),
                is_collapsed: false,
            }],
        }),
        offset_frames: 0,
        duration_frames: 4,
        property_groups: vec![],
        is_selected: false,
    };
    let t = Timeline { tracks: vec![Track { clips: vec![target] }, Track { clips: vec![anim] }] };
    let mut buf = Vec::new();
    export_timeline(&t, &mut buf);
    let schemas = float_schema();
    let mut s = Stream::new(&buf);
    let (_, loaded) = deserialize_timeline(&mut s, &schemas).unwrap();
    match &loaded.tracks[1].clips[0].source {
        ClipSource::Animation(ac) => assert_eq!(ac.properties.len(), 0),
        _ => panic!("expected an animation clip"),
    }
}

#[test]
fn truncated_blob_is_refused() {
    let t = Timeline {
        tracks: vec![Track { clips: vec![generator_clip(1, 0, 4, PropertyValue::Float(1))] }],
    };
    let mut buf = Vec::new();
    export_timeline(&t, &mut buf);
    buf.truncate(buf.len() - 3);
    let schemas = float_schema();
    let mut s = Stream::new(&buf);
    assert!(deserialize_timeline(&mut s, &schemas).is_none());
}

#[test]
fn unknown_schema_is_refused() {
    let t = Timeline {
        tracks: vec![Track { clips: vec![generator_clip(1, 0, 4, PropertyValue::Float(1))] }],
    };
    let mut buf = Vec::new();
    export_timeline(&t, &mut buf);
    let mut s = Stream::new(&buf);
    assert!(deserialize_timeline(&mut s, &Vec::new()).is_none());
}

#[test]
fn shader_table_round_trip() {
    let mut buf = Vec::new();
    let strings = vec![b"main".to_vec(), b"#include \"0\"".to_vec()];
    write_shader_table(
        &mut buf,
        &vec![0, 1, 0],
        &vec![ShaderType::Vertex, ShaderType::Pixel],
        &vec![1, 0],
        &strings,
    );
    buf.push(42);
    let mut s = Stream::new(&buf);
    let table = read_shader_table(&mut s).unwrap();
    assert_eq!(table.creation_indices, vec![0, 1, 0]);
    assert_eq!(table.entry_point_types, vec![ShaderType::Vertex, ShaderType::Pixel]);
    assert_eq!(table.entry_point_indices, vec![1, 0]);
    assert_eq!(table.strings.len(), 2);
    assert_eq!(table.strings[0], b"main");
    assert_eq!(table.strings[1], b"#include \"0\"");
    assert_eq!(s.as_slice(), &[42]);
}

#[test]
fn shader_table_with_bad_type_is_refused() {
    let mut buf = Vec::new();
    write_shader_table(&mut buf, &vec![], &vec![ShaderType::Compute], &vec![0], &vec![b"x".to_vec()]);
    // the type column starts after the creation column's count (4 bytes) and its own count
    buf[8] = 9;
    let before = buf.clone();
    let mut s = Stream::new(&buf);
    assert!(read_shader_table(&mut s).is_none());
    assert_eq!(s.as_slice(), &before[..]);
}
