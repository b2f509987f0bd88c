use atlas::serialize::{
    load_timeline, load_track, oldest_backup, save_clip, save_timeline, timeline_savable_with,
    track_loadable, NamedGroup, NamedProperty, NamedSchema, SavedAnimatedProperty, SavedClip,
    SavedPropertyDefault, SavedPropertyGroup, SavedTrack,
};
use atlas::timeline::{
    AnimatedProperty, AnimatedPropertyField, AnimatedPropertyTarget, AnimationClip, Clip, ClipSource,
    CurveInterpolation, CurveSegment, PropertyDefault, PropertyGroup, PropertyValue, Timeline, Track,
};

fn prop(name: &str, value: u32) -> NamedProperty {
    NamedProperty {
        name: name.to_string(),
        default: PropertyDefault { value: PropertyValue::Float(value), is_override: false },
    }
}

fn schemas() -> Vec<NamedSchema> {
    vec![
        NamedSchema {
            name: "box".to_string(),
            groups: vec![
                NamedGroup { name: "transform".to_string(), properties: vec![prop("size", 1), prop("angle", 0)] },
                NamedGroup { name: "look".to_string(), properties: vec![prop("shade", 9)] },
            ],
        },
        NamedSchema {
            name: "fade".to_string(),
            groups: vec![NamedGroup { name: "main".to_string(), properties: vec![prop("amount", 3)] }],
        },
    ]
}

fn default(value: u32, is_override: bool) -> PropertyDefault {
    PropertyDefault { value: PropertyValue::Float(value), is_override }
}

fn box_clip(id: u32, offset: u32) -> Clip {
    Clip {
        id,
        name: format!("box{}", id),
        schema: 0,
        source: ClipSource::Generator,
        offset_frames: offset,
        duration_frames: 10,
        property_groups: vec![
            PropertyGroup { defaults: vec![default(5, true), default(7, false)] },
            PropertyGroup { defaults: vec![default(2, false)] },
        ],
        is_selected: false,
    }
}

fn animation_of(id: u32, target: u32) -> Clip {
    Clip {
        id,
        name: "Animation".to_string(),
        schema: 0,
        source: ClipSource::Animation(AnimationClip {
            target_clip: target,
            properties: vec![AnimatedProperty {
                group_index: 0,
                property_index: 1,
                target: AnimatedPropertyTarget::Joined(AnimatedPropertyField {
                    local_offset_frames: 2,
                    start_value: PropertyValue::Float(1),
                    segments: vec![CurveSegment {
                        duration_frames: 4,
                        end_value: PropertyValue::Float(8),
                        interpolation: CurveInterpolation::Linear,
                    }],
                }),
                is_collapsed: false,
            }],
        }),
        offset_frames: 0,
        duration_frames: 6,
        property_groups: Vec::new(),
        is_selected: false,
    }
}

fn saved_clip(schema: &str, offset: u32, duration: u32) -> SavedClip {
    SavedClip {
        id: 1,
        name: "c".to_string(),
        schema: schema.to_string(),
        animation: None,
        offset_frames: offset,
        duration_frames: duration,
        property_groups: Vec::new(),
    }
}

#[test]
fn save_names_schemas_groups_and_properties() {
    let ss = schemas();
    let c = save_clip(&box_clip(1, 3), &ss);
    assert_eq!(c.schema, "box");
    assert_eq!(c.offset_frames, 3);
    assert!(c.animation.is_none());
    let names: Vec<(String, Vec<String>)> = c
        .property_groups
        .iter()
        .map(|g| (g.name.clone(), g.defaults.iter().map(|d| d.name.clone()).collect()))
        .collect();
    assert_eq!(
        names,
        vec![
            ("transform".to_string(), vec!["size".to_string(), "angle".to_string()]),
            ("look".to_string(), vec!["shade".to_string()]),
        ]
    );
    assert_eq!(c.property_groups[0].defaults[0].value, PropertyValue::Float(5));
    assert!(c.property_groups[0].defaults[0].is_override);

    let a = save_clip(&animation_of(2, 1), &ss);
    let anim = a.animation.expect("an animation clip is saved with its animation");
    assert_eq!(anim.target_clip, 1);
    assert_eq!(anim.properties[0].group_name, "transform");
    assert_eq!(anim.properties[0].property_name, "angle");
}

#[test]
fn saved_timeline_loads_back() {
    let ss = schemas();
    let mut selected = box_clip(1, 0);
    selected.is_selected = true;
    let t = Timeline {
        tracks: vec![Track { clips: vec![selected, box_clip(3, 5)] }, Track { clips: vec![animation_of(2, 1)] }],
    };
    assert!(timeline_savable_with(&t, &ss));
    let saved = save_timeline(&t, &ss);
    assert!(saved.tracks.iter().all(|tr| track_loadable(tr, &ss)));
    let loaded = load_timeline(&saved, &ss);
    let mut expected = t.clone();
    expected.tracks[0].clips[0].is_selected = false;
    assert_eq!(loaded, expected);
}

#[test]
fn unknown_schema_clip_is_dropped_and_next_keeps_its_start() {
    let ss = schemas();
    let track = SavedTrack { clips: vec![saved_clip("gone", 2, 3), saved_clip("fade", 4, 1), saved_clip("gone", 0, 2)] };
    assert!(track_loadable(&track, &ss));
    let t = load_track(&track, &ss);
    assert_eq!(t.clips.len(), 1);
    assert_eq!(t.clips[0].offset_frames, 9);
    assert_eq!(t.clips[0].schema, 1);
    // A generator clip without saved groups starts from the schema's defaults.
    assert_eq!(t.clips[0].property_groups, vec![PropertyGroup { defaults: vec![default(3, false)] }]);
}

#[test]
fn saved_defaults_are_found_by_name() {
    let ss = schemas();
    let mut c = saved_clip("box", 0, 1);
    c.property_groups = vec![
        SavedPropertyGroup {
            name: "transform".to_string(),
            defaults: vec![
                SavedPropertyDefault { name: "angle".to_string(), value: PropertyValue::Float(40), is_override: true },
                SavedPropertyDefault { name: "old".to_string(), value: PropertyValue::Float(1), is_override: true },
            ],
        },
        SavedPropertyGroup {
            name: "transform".to_string(),
            defaults: vec![
                SavedPropertyDefault { name: "size".to_string(), value: PropertyValue::Float(6), is_override: false },
                SavedPropertyDefault { name: "size".to_string(), value: PropertyValue::Float(7), is_override: true },
            ],
        },
    ];
    let t = load_track(&SavedTrack { clips: vec![c] }, &ss);
    // The last group of a name counts, and in it the last default of a name.
    assert_eq!(
        t.clips[0].property_groups,
        vec![
            PropertyGroup { defaults: vec![default(7, true), default(0, false)] },
            PropertyGroup { defaults: vec![default(9, false)] },
        ]
    );
}

#[test]
fn animated_property_of_unknown_group_is_dropped() {
    let ss = schemas();
    let mut c = saved_clip("box", 0, 1);
    let field = || {
        AnimatedPropertyTarget::Joined(AnimatedPropertyField {
            local_offset_frames: 0,
            start_value: PropertyValue::Float(0),
            segments: Vec::new(),
        })
    };
    c.animation = Some(atlas::serialize::SavedAnimationClip {
        target_clip: 4,
        properties: vec![
            SavedAnimatedProperty { group_name: "gone".to_string(), property_name: "size".to_string(), target: field() },
            SavedAnimatedProperty { group_name: "look".to_string(), property_name: "shade".to_string(), target: field() },
            SavedAnimatedProperty { group_name: "look".to_string(), property_name: "gone".to_string(), target: field() },
        ],
    });
    let t = load_track(&SavedTrack { clips: vec![c] }, &ss);
    match &t.clips[0].source {
        ClipSource::Animation(a) => {
            assert_eq!(a.target_clip, 4);
            let found: Vec<(usize, usize)> = a.properties.iter().map(|p| (p.group_index, p.property_index)).collect();
            assert_eq!(found, vec![(1, 0)]);
        }
        ClipSource::Generator => panic!("an animation clip loads as one"),
    }
    assert!(t.clips[0].property_groups.is_empty());
}

#[test]
fn overflowing_frames_are_refused() {
    let ss = schemas();
    let track = SavedTrack { clips: vec![saved_clip("gone", u32::MAX, 1)] };
    assert!(!track_loadable(&track, &ss));
    let track = SavedTrack { clips: vec![saved_clip("gone", u32::MAX - 1, 1), saved_clip("fade", 1, 1)] };
    assert!(!track_loadable(&track, &ss));
}

#[test]
fn clip_of_missing_schema_cannot_be_saved() {
    let ss = schemas();
    let mut c = box_clip(1, 0);
    c.schema = 5;
    assert!(!timeline_savable_with(&Timeline { tracks: vec![Track { clips: vec![c] }] }, &ss));
}

#[test]
fn oldest_backup_only_beyond_a_hundred() {
    let names: Vec<String> = (0..100).map(|i| format!("2301{:02}-000000-backup.save", i)).collect();
    assert_eq!(oldest_backup(&names), None);
    let mut more = names.clone();
    more.push("220101-000000-backup.save".to_string());
    assert_eq!(oldest_backup(&more), Some(100));
    let mut shorter = names.clone();
    shorter.insert(0, "2301".to_string());
    assert_eq!(oldest_backup(&shorter), Some(0));
}
