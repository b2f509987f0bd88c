//! What loading gives back of an export: the player reads every clip that the editor wrote,
//! in track order, with frame counts doubled and clip references renumbered.
use vstd::prelude::*;
use crate::binary_writer::{le_bytes_u32, lemma_le_u32_roundtrip};
use crate::deserializer::timeline::{
    sections_fit, split_columns, take_sections, take_value_columns, Sections, ValueColumns,
    clip_model, decode_clip, decode_clips, decode_field, decode_fields, decode_group, decode_groups,
    decode_interpolation, decode_properties, decode_property, decode_sections, decode_segment,
    decode_segments, decode_timeline, decode_value, doubled, doubled_i32, prepend, take_byte,
    take_column, take_section, take_word, ClipModel, FieldModel, PropertyModel, SourceModel,
    TargetModel,
};
use crate::exporter::{
    active_properties, blob_bytes, cat, clip_at, clip_export, clip_ids, clip_refs, clips_export,
    column, defaults_export, duration_upto, exportable, field_export, fields_export, group_export,
    last_index, lemma_cat_assoc, lemma_cat_empty, no_bytes, properties_export, property_export,
    section, segment_export, segments_export, size_word, target_of, timeline_bytes, value_export,
    ExportBytes,
};
use crate::timeline::{
    AnimatedProperty, AnimatedPropertyField, AnimatedPropertyTarget, Clip, ClipSource,
    CurveInterpolation, CurveSegment, PropertyDefault, PropertyGroup, PropertyType, PropertyValue,
    Timeline,
};

verus! {

/// A value of the kind that a property of type `ty` holds.
pub open spec fn value_matches(v: PropertyValue, ty: PropertyType) -> bool {
    match (v, ty) {
        (PropertyValue::Float(_), PropertyType::Float) => true,
        (PropertyValue::Vec2(_, _), PropertyType::Vec2) => true,
        (PropertyValue::Vec3(_, _, _), PropertyType::Vec3) => true,
        (PropertyValue::RgbColor(_, _, _), PropertyType::RgbColor) => true,
        (PropertyValue::Vec4(_, _, _, _), PropertyType::Vec4) => true,
        (PropertyValue::RgbaColor(_, _, _, _), PropertyType::RgbaColor) => true,
        (PropertyValue::Rotation(_, _, _, _), PropertyType::Rotation) => true,
        (PropertyValue::ClipReference(_), PropertyType::ClipReference) => true,
        _ => false,
    }
}

/// A value as the player loads it: a clip reference names the referenced clip's position.
pub open spec fn remap_value(v: PropertyValue, ids: Seq<u32>) -> PropertyValue {
    match v {
        PropertyValue::ClipReference(Some(id)) => PropertyValue::ClipReference(Some(last_index(ids, id) as u32)),
        _ => v,
    }
}

pub open spec fn loaded_segment(s: CurveSegment, ids: Seq<u32>) -> CurveSegment {
    CurveSegment {
        duration_frames: doubled(s.duration_frames),
        end_value: remap_value(s.end_value, ids),
        interpolation: s.interpolation,
    }
}

pub open spec fn loaded_field(f: AnimatedPropertyField, ids: Seq<u32>) -> FieldModel {
    FieldModel {
        local_offset_frames: doubled_i32(f.local_offset_frames),
        start_value: remap_value(f.start_value, ids),
        segments: f.segments@.map_values(|s: CurveSegment| loaded_segment(s, ids)),
    }
}

pub open spec fn loaded_property(p: AnimatedProperty, ids: Seq<u32>) -> PropertyModel {
    PropertyModel {
        group_index: p.group_index,
        property_index: p.property_index,
        target: match p.target {
            AnimatedPropertyTarget::Joined(f) => TargetModel::Joined(loaded_field(f, ids)),
            AnimatedPropertyTarget::Separate(fs) => TargetModel::Separate(
                fs@.map_values(|f: AnimatedPropertyField| loaded_field(f, ids)),
            ),
        },
        is_collapsed: false,
    }
}

pub open spec fn loaded_default(d: PropertyDefault, ids: Seq<u32>) -> PropertyDefault {
    PropertyDefault { value: remap_value(d.value, ids), is_override: false }
}

pub open spec fn loaded_group(ds: Seq<PropertyDefault>, ids: Seq<u32>) -> Seq<PropertyDefault> {
    ds.map_values(|d: PropertyDefault| loaded_default(d, ids))
}

/// Clip `j` of the flattened list as the player loads it: numbered `j`, without name or
/// selection, frame counts doubled, references renumbered; an animation keeps only the
/// properties that the export kept and loses its default values.
pub open spec fn loaded_clip(t: Timeline, j: int) -> ClipModel {
    let r = clip_refs(t)[j];
    let c = clip_at(t, r);
    let ids = clip_ids(t);
    match c.source {
        ClipSource::Generator => ClipModel {
            id: j as u32,
            name: Seq::empty(),
            schema: c.schema,
            source: SourceModel::Generator,
            offset_frames: doubled(r.2 as u32),
            duration_frames: doubled(c.duration_frames),
            property_groups: c.property_groups@.map_values(|g: PropertyGroup| loaded_group(g.defaults@, ids)),
            is_selected: false,
        },
        ClipSource::Animation(a) => ClipModel {
            id: j as u32,
            name: Seq::empty(),
            schema: c.schema,
            source: SourceModel::Animation(
                last_index(ids, a.target_clip) as u32,
                active_properties(a.properties@, target_of(t, a.target_clip)).map_values(
                    |p: AnimatedProperty| loaded_property(p, ids),
                ),
            ),
            offset_frames: doubled(r.2 as u32),
            duration_frames: doubled(c.duration_frames),
            property_groups: Seq::empty(),
            is_selected: false,
        },
    }
}

pub open spec fn loaded_clips(t: Timeline) -> Seq<ClipModel> {
    Seq::new(clip_refs(t).len(), |j: int| loaded_clip(t, j))
}

/// The values of a curve are of type `ty` and it has fewer than 256 segments.
pub open spec fn field_loadable(f: AnimatedPropertyField, ty: PropertyType) -> bool {
    &&& value_matches(f.start_value, ty)
    &&& f.segments@.len() < 256
    &&& forall|k: int| 0 <= k < f.segments@.len() ==> value_matches(#[trigger] f.segments@[k].end_value, ty)
}

/// An animated property names a property of `schema` and its curves fit it: one curve of the
/// property's type, or between 1 and 255 float curves.
pub open spec fn property_loadable(p: AnimatedProperty, schema: Seq<Seq<PropertyType>>) -> bool {
    &&& p.group_index < schema.len()
    &&& p.group_index < 256
    &&& p.property_index < schema[p.group_index as int].len()
    &&& p.property_index < 256
    &&& match p.target {
        AnimatedPropertyTarget::Joined(f) => field_loadable(f, schema[p.group_index as int][p.property_index as int]),
        AnimatedPropertyTarget::Separate(fs) => {
            &&& 0 < fs@.len() < 256
            &&& forall|k: int| 0 <= k < fs@.len() ==> field_loadable(#[trigger] fs@[k], PropertyType::Float)
        },
    }
}

/// A clip fits the schema table: a generator's schema index is a schema (and not 255) whose
/// groups and property types its default values follow; an animation's schema is a schema that
/// each kept property fits, and it keeps fewer than 256 properties.
pub open spec fn clip_loadable(t: Timeline, c: Clip, schemas: Seq<Seq<Seq<PropertyType>>>) -> bool {
    &&& c.schema < schemas.len()
    &&& c.schema < 256
    &&& match c.source {
        ClipSource::Generator => {
            let s = schemas[c.schema as int];
            &&& c.schema != 255
            &&& c.property_groups@.len() == s.len()
            &&& forall|g: int|
                0 <= g < s.len() ==> (#[trigger] c.property_groups@[g]).defaults@.len() == s[g].len()
                    && forall|d: int|
                    0 <= d < s[g].len() ==> value_matches(#[trigger] c.property_groups@[g].defaults@[d].value, s[g][d])
        },
        ClipSource::Animation(a) => {
            let active = active_properties(a.properties@, target_of(t, a.target_clip));
            &&& active.len() < 256
            &&& forall|k: int| 0 <= k < active.len() ==> property_loadable(#[trigger] active[k], schemas[c.schema as int])
        },
    }
}

/// No byte count of the blob wraps: each section's and each value column's byte count is below
/// 2^32, and each record count below 256.
pub open spec fn counts_fit(e: ExportBytes) -> bool {
    &&& e.types.len() < 256
    &&& e.targets.len() < 256
    &&& e.target_groups.len() < 256
    &&& e.num_segments.len() < 256
    &&& e.segment_durations.len() / 4 < 256
    &&& e.start_times.len() + e.durations.len() + e.types.len() < 0x1_0000_0000
    &&& e.targets.len() + e.schemas.len() + e.num_props.len() < 0x1_0000_0000
    &&& e.target_groups.len() + e.target_props.len() + e.num_fields.len() < 0x1_0000_0000
    &&& e.local_offsets.len() + e.num_segments.len() < 0x1_0000_0000
    &&& e.segment_durations.len() + e.interpolations.len() < 0x1_0000_0000
    &&& e.val0.len() < 0x1_0000_0000
    &&& e.val1.len() < 0x1_0000_0000
    &&& e.val2.len() < 0x1_0000_0000
    &&& e.val3.len() < 0x1_0000_0000
}

/// A timeline that the player can load as exported: it can be exported, it has fewer than 256
/// clips, every clip fits the schema table, and the blob's counts fit their fields.
pub open spec fn loadable(t: Timeline, schemas: Seq<Seq<Seq<PropertyType>>>) -> bool {
    &&& exportable(t)
    &&& clip_refs(t).len() < 256
    &&& forall|k: int, i: int|
        0 <= k < t.tracks@.len() && 0 <= i < t.tracks@[k].clips@.len() ==> clip_loadable(t, #[trigger] t.tracks@[k].clips@[i], schemas)
    &&& counts_fit(clips_export(t, clip_refs(t).len() as int))
}

// ---- Reading the head of a column ----

pub proof fn lemma_take_word(x: u32, s: Seq<u8>)
    ensures
        take_word(le_bytes_u32(x) + s) == Some((x, s)),
{
    lemma_le_u32_roundtrip(x);
    assert((le_bytes_u32(x) + s).take(4) =~= le_bytes_u32(x));
    assert((le_bytes_u32(x) + s).skip(4) =~= s);
}

pub proof fn lemma_take_byte(b: u8, s: Seq<u8>)
    ensures
        take_byte(seq![b] + s) == Some((b, s)),
{
    assert((seq![b] + s).skip(1) =~= s);
}

// ---- Columns of the export as pieces ----

pub proof fn lemma_segments_cons(s: CurveSegment, segs: Seq<CurveSegment>, ids: Seq<u32>)
    ensures
        segments_export(seq![s] + segs, ids) == cat(segment_export(s, ids), segments_export(segs, ids)),
    decreases segs.len(),
{
    if segs.len() == 0 {
        assert((seq![s] + segs).drop_last() =~= Seq::<CurveSegment>::empty());
        assert(segments_export(Seq::<CurveSegment>::empty(), ids) == no_bytes());
        assert((seq![s] + segs).last() == s);
        lemma_cat_empty(segment_export(s, ids));
    } else {
        lemma_segments_cons(s, segs.drop_last(), ids);
        assert((seq![s] + segs).drop_last() =~= seq![s] + segs.drop_last());
        assert((seq![s] + segs).last() == segs.last());
        lemma_cat_assoc(segment_export(s, ids), segments_export(segs.drop_last(), ids), segment_export(segs.last(), ids));
    }
}

pub proof fn lemma_fields_cons(f: AnimatedPropertyField, fs: Seq<AnimatedPropertyField>, ids: Seq<u32>)
    ensures
        fields_export(seq![f] + fs, ids) == cat(field_export(f, ids), fields_export(fs, ids)),
    decreases fs.len(),
{
    if fs.len() == 0 {
        assert((seq![f] + fs).drop_last() =~= Seq::<AnimatedPropertyField>::empty());
        assert(fields_export(Seq::<AnimatedPropertyField>::empty(), ids) == no_bytes());
        assert((seq![f] + fs).last() == f);
        lemma_cat_empty(field_export(f, ids));
    } else {
        lemma_fields_cons(f, fs.drop_last(), ids);
        assert((seq![f] + fs).drop_last() =~= seq![f] + fs.drop_last());
        assert((seq![f] + fs).last() == fs.last());
        lemma_cat_assoc(field_export(f, ids), fields_export(fs.drop_last(), ids), field_export(fs.last(), ids));
    }
}

pub proof fn lemma_properties_cons(p: AnimatedProperty, ps: Seq<AnimatedProperty>, ids: Seq<u32>)
    ensures
        properties_export(seq![p] + ps, ids) == cat(property_export(p, ids), properties_export(ps, ids)),
    decreases ps.len(),
{
    if ps.len() == 0 {
        assert((seq![p] + ps).drop_last() =~= Seq::<AnimatedProperty>::empty());
        assert(properties_export(Seq::<AnimatedProperty>::empty(), ids) == no_bytes());
        assert((seq![p] + ps).last() == p);
        lemma_cat_empty(property_export(p, ids));
    } else {
        lemma_properties_cons(p, ps.drop_last(), ids);
        assert((seq![p] + ps).drop_last() =~= seq![p] + ps.drop_last());
        assert((seq![p] + ps).last() == ps.last());
        lemma_cat_assoc(property_export(p, ids), properties_export(ps.drop_last(), ids), property_export(ps.last(), ids));
    }
}

pub proof fn lemma_group_cons(d: PropertyDefault, ds: Seq<PropertyDefault>, ids: Seq<u32>)
    ensures
        group_export(seq![d] + ds, ids) == cat(value_export(d.value, ids), group_export(ds, ids)),
    decreases ds.len(),
{
    if ds.len() == 0 {
        assert((seq![d] + ds).drop_last() =~= Seq::<PropertyDefault>::empty());
        assert(group_export(Seq::<PropertyDefault>::empty(), ids) == no_bytes());
        assert((seq![d] + ds).last() == d);
        lemma_cat_empty(value_export(d.value, ids));
    } else {
        lemma_group_cons(d, ds.drop_last(), ids);
        assert((seq![d] + ds).drop_last() =~= seq![d] + ds.drop_last());
        assert((seq![d] + ds).last() == ds.last());
        lemma_cat_assoc(value_export(d.value, ids), group_export(ds.drop_last(), ids), value_export(ds.last().value, ids));
    }
}

pub proof fn lemma_defaults_cons(g: PropertyGroup, gs: Seq<PropertyGroup>, ids: Seq<u32>)
    ensures
        defaults_export(seq![g] + gs, ids) == cat(group_export(g.defaults@, ids), defaults_export(gs, ids)),
    decreases gs.len(),
{
    if gs.len() == 0 {
        assert((seq![g] + gs).drop_last() =~= Seq::<PropertyGroup>::empty());
        assert(defaults_export(Seq::<PropertyGroup>::empty(), ids) == no_bytes());
        assert((seq![g] + gs).last() == g);
        lemma_cat_empty(group_export(g.defaults@, ids));
    } else {
        lemma_defaults_cons(g, gs.drop_last(), ids);
        assert((seq![g] + gs).drop_last() =~= seq![g] + gs.drop_last());
        assert((seq![g] + gs).last() == gs.last());
        lemma_cat_assoc(group_export(g.defaults@, ids), defaults_export(gs.drop_last(), ids), group_export(gs.last().defaults@, ids));
    }
}

/// What clips `j` to `n` of the flattened list add, front to back.
pub open spec fn clips_between(t: Timeline, j: int, n: int) -> ExportBytes
    decreases n - j,
{
    if j >= n {
        no_bytes()
    } else {
        cat(clip_export(t, clip_refs(t)[j]), clips_between(t, j + 1, n))
    }
}

pub proof fn lemma_clips_between(t: Timeline, j: int, n: int)
    requires
        0 <= j <= n,
    ensures
        clips_export(t, n) == cat(clips_export(t, j), clips_between(t, j, n)),
    decreases n - j,
{
    if j == n {
        lemma_cat_empty(clips_export(t, n));
    } else {
        lemma_clips_between(t, j + 1, n);
        lemma_cat_assoc(clips_export(t, j), clip_export(t, clip_refs(t)[j]), clips_between(t, j + 1, n));
    }
}

// ---- Reading back each piece ----

pub proof fn lemma_last_index_small(ids: Seq<u32>, id: u32)
    requires
        ids.contains(id),
        ids.len() < 256,
    ensures
        0 <= last_index(ids, id) < 255,
        crate::exporter::low_byte(last_index(ids, id)) == last_index(ids, id),
{
    crate::exporter::lemma_last_index_bounds(ids, id);
}

pub proof fn lemma_decode_value(v: PropertyValue, ty: PropertyType, ids: Seq<u32>, r: ExportBytes)
    requires
        value_matches(v, ty),
        crate::exporter::value_resolves(v, ids),
        ids.len() < 256,
    ensures
        decode_value(ty, cat(value_export(v, ids), r)) == Some((remap_value(v, ids), r)),
{
    reveal(cat);
    let c = cat(value_export(v, ids), r);
    match v {
        PropertyValue::ClipReference(o) => {
            match o {
                Some(id) => {
                    lemma_last_index_small(ids, id);
                },
                None => {},
            }
            let b = crate::exporter::ref_byte(ids, o);
            lemma_take_byte(b, r.val0);
            assert(ExportBytes { val0: r.val0, ..c } =~= r);
        },
        PropertyValue::Float(a) => {
            lemma_take_word(a, r.val0);
            assert(c.val1 =~= r.val1);
            assert(c.val2 =~= r.val2);
            assert(c.val3 =~= r.val3);
            assert(ExportBytes { val0: c.val0.skip(4), ..c } =~= r);
        },
        PropertyValue::Vec2(a, b) => {
            lemma_take_word(a, r.val0);
            lemma_take_word(b, r.val1);
            assert(c.val2 =~= r.val2);
            assert(c.val3 =~= r.val3);
            assert(ExportBytes { val0: c.val0.skip(4), val1: c.val1.skip(4), ..c } =~= r);
        },
        PropertyValue::Vec3(a, b, d) => {
            lemma_take_word(a, r.val0);
            lemma_take_word(b, r.val1);
            lemma_take_word(d, r.val2);
            assert(c.val3 =~= r.val3);
            assert(ExportBytes { val0: c.val0.skip(4), val1: c.val1.skip(4), val2: c.val2.skip(4), ..c } =~= r);
        },
        PropertyValue::RgbColor(a, b, d) => {
            lemma_take_word(a, r.val0);
            lemma_take_word(b, r.val1);
            lemma_take_word(d, r.val2);
            assert(c.val3 =~= r.val3);
            assert(ExportBytes { val0: c.val0.skip(4), val1: c.val1.skip(4), val2: c.val2.skip(4), ..c } =~= r);
        },
        PropertyValue::Vec4(a, b, d, e) => {
            lemma_take_word(a, r.val0);
            lemma_take_word(b, r.val1);
            lemma_take_word(d, r.val2);
            lemma_take_word(e, r.val3);
            assert(ExportBytes {
                val0: c.val0.skip(4),
                val1: c.val1.skip(4),
                val2: c.val2.skip(4),
                val3: c.val3.skip(4),
                ..c
            } =~= r);
        },
        PropertyValue::RgbaColor(a, b, d, e) => {
            lemma_take_word(a, r.val0);
            lemma_take_word(b, r.val1);
            lemma_take_word(d, r.val2);
            lemma_take_word(e, r.val3);
            assert(ExportBytes {
                val0: c.val0.skip(4),
                val1: c.val1.skip(4),
                val2: c.val2.skip(4),
                val3: c.val3.skip(4),
                ..c
            } =~= r);
        },
        PropertyValue::Rotation(a, b, d, e) => {
            lemma_take_word(a, r.val0);
            lemma_take_word(b, r.val1);
            lemma_take_word(d, r.val2);
            lemma_take_word(e, r.val3);
            assert(ExportBytes {
                val0: c.val0.skip(4),
                val1: c.val1.skip(4),
                val2: c.val2.skip(4),
                val3: c.val3.skip(4),
                ..c
            } =~= r);
        },
    }
}

pub proof fn lemma_decode_interpolation(i: CurveInterpolation, s: Seq<u8>)
    ensures
        decode_interpolation(crate::exporter::interpolation_bytes(i) + s) == Some((i, s)),
{
    match i {
        CurveInterpolation::Linear => {
            lemma_take_byte(0, s);
        },
        CurveInterpolation::CubicBezier(b) => {
            let e1 = le_bytes_u32(b.c1.x) + le_bytes_u32(b.c1.y);
            let e2 = le_bytes_u32(b.c2.x) + le_bytes_u32(b.c2.y);
            crate::binary_writer::lemma_vector2_encoding(b.c1);
            crate::binary_writer::lemma_vector2_encoding(b.c2);
            let rest = e1 + e2 + s;
            assert(crate::exporter::interpolation_bytes(i) + s =~= seq![1u8] + rest);
            lemma_take_byte(1, rest);
            assert(rest.take(8) =~= e1);
            assert(rest.subrange(8, 16) =~= e2);
            assert(rest.skip(16) =~= s);
            crate::binary_writer::lemma_vector2_roundtrip(b.c1);
            crate::binary_writer::lemma_vector2_roundtrip(b.c2);
        },
    }
}

pub proof fn lemma_decode_segment(sg: CurveSegment, ty: PropertyType, ids: Seq<u32>, r: ExportBytes)
    requires
        value_matches(sg.end_value, ty),
        crate::exporter::value_resolves(sg.end_value, ids),
        ids.len() < 256,
    ensures
        decode_segment(ty, cat(segment_export(sg, ids), r)) == Some((loaded_segment(sg, ids), r)),
{
    reveal(cat);
    let c = cat(segment_export(sg, ids), r);
    lemma_take_word(sg.duration_frames, r.segment_durations);
    let ib = crate::exporter::interpolation_bytes(sg.interpolation);
    let r1 = ExportBytes { interpolations: ib + r.interpolations, ..r };
    assert(ExportBytes { segment_durations: r.segment_durations, ..c } =~= cat(value_export(sg.end_value, ids), r1));
    lemma_decode_value(sg.end_value, ty, ids, r1);
    lemma_decode_interpolation(sg.interpolation, r.interpolations);
    assert(ExportBytes { interpolations: r.interpolations, ..r1 } =~= r);
}

pub proof fn lemma_decode_segments(segs: Seq<CurveSegment>, ty: PropertyType, ids: Seq<u32>, r: ExportBytes)
    requires
        forall|k: int| 0 <= k < segs.len() ==> value_matches(#[trigger] segs[k].end_value, ty),
        forall|k: int| 0 <= k < segs.len() ==> crate::exporter::value_resolves(#[trigger] segs[k].end_value, ids),
        ids.len() < 256,
    ensures
        decode_segments(ty, segs.len(), cat(segments_export(segs, ids), r)) == Some(
            (segs.map_values(|s: CurveSegment| loaded_segment(s, ids)), r),
        ),
    decreases segs.len(),
{
    if segs.len() == 0 {
        assert(segments_export(segs, ids) == no_bytes());
        lemma_cat_empty(r);
        assert(segs.map_values(|s: CurveSegment| loaded_segment(s, ids)) =~= Seq::<CurveSegment>::empty());
    } else {
        let sg = segs[0];
        let tail = segs.drop_first();
        assert(segs =~= seq![sg] + tail);
        lemma_segments_cons(sg, tail, ids);
        lemma_cat_assoc(segment_export(sg, ids), segments_export(tail, ids), r);
        let r1 = cat(segments_export(tail, ids), r);
        lemma_decode_segment(sg, ty, ids, r1);
        assert forall|k: int| 0 <= k < tail.len() implies value_matches(#[trigger] tail[k].end_value, ty)
            && crate::exporter::value_resolves(tail[k].end_value, ids) by {
            assert(tail[k] == segs[k + 1]);
        }
        lemma_decode_segments(tail, ty, ids, r);
        assert(segs.map_values(|s: CurveSegment| loaded_segment(s, ids)) =~= seq![loaded_segment(sg, ids)]
            + tail.map_values(|s: CurveSegment| loaded_segment(s, ids)));
    }
}

pub proof fn lemma_decode_field(f: AnimatedPropertyField, ty: PropertyType, ids: Seq<u32>, r: ExportBytes)
    requires
        field_loadable(f, ty),
        crate::exporter::field_resolves(f, ids),
        ids.len() < 256,
    ensures
        decode_field(ty, cat(field_export(f, ids), r)) == Some((loaded_field(f, ids), r)),
{
    reveal(cat);
    let segs = f.segments@;
    let h = ExportBytes {
        local_offsets: le_bytes_u32(f.local_offset_frames as u32),
        num_segments: seq![crate::exporter::low_byte(segs.len() as int)],
        ..value_export(f.start_value, ids)
    };
    let sx = segments_export(segs, ids);
    lemma_cat_assoc(h, sx, r);
    let r1 = cat(sx, r);
    let c = cat(h, r1);
    lemma_take_word(f.local_offset_frames as u32, r1.local_offsets);
    let x = f.local_offset_frames;
    assert(((x as u32) as i32) == x) by (bit_vector);
    let r2 = ExportBytes { num_segments: seq![segs.len() as u8] + r1.num_segments, ..r1 };
    assert(ExportBytes { local_offsets: r1.local_offsets, ..c } =~= cat(value_export(f.start_value, ids), r2));
    lemma_decode_value(f.start_value, ty, ids, r2);
    lemma_take_byte(segs.len() as u8, r1.num_segments);
    assert(ExportBytes { num_segments: r1.num_segments, ..r2 } =~= r1);
    lemma_decode_segments(segs, ty, ids, r);
}

pub proof fn lemma_decode_fields(fs: Seq<AnimatedPropertyField>, ids: Seq<u32>, r: ExportBytes)
    requires
        forall|k: int| 0 <= k < fs.len() ==> field_loadable(#[trigger] fs[k], PropertyType::Float),
        forall|k: int| 0 <= k < fs.len() ==> crate::exporter::field_resolves(#[trigger] fs[k], ids),
        ids.len() < 256,
    ensures
        decode_fields(PropertyType::Float, fs.len(), cat(fields_export(fs, ids), r)) == Some(
            (fs.map_values(|f: AnimatedPropertyField| loaded_field(f, ids)), r),
        ),
    decreases fs.len(),
{
    if fs.len() == 0 {
        assert(fields_export(fs, ids) == no_bytes());
        lemma_cat_empty(r);
        assert(fs.map_values(|f: AnimatedPropertyField| loaded_field(f, ids)) =~= Seq::<FieldModel>::empty());
    } else {
        let f = fs[0];
        let tail = fs.drop_first();
        assert(fs =~= seq![f] + tail);
        lemma_fields_cons(f, tail, ids);
        lemma_cat_assoc(field_export(f, ids), fields_export(tail, ids), r);
        lemma_decode_field(f, PropertyType::Float, ids, cat(fields_export(tail, ids), r));
        assert forall|k: int| 0 <= k < tail.len() implies field_loadable(#[trigger] tail[k], PropertyType::Float)
            && crate::exporter::field_resolves(tail[k], ids) by {
            assert(tail[k] == fs[k + 1]);
        }
        lemma_decode_fields(tail, ids, r);
        assert(fs.map_values(|f: AnimatedPropertyField| loaded_field(f, ids)) =~= seq![loaded_field(f, ids)]
            + tail.map_values(|f: AnimatedPropertyField| loaded_field(f, ids)));
    }
}

#[verifier::spinoff_prover]
#[verifier::rlimit(40)]
pub proof fn lemma_decode_property(p: AnimatedProperty, schema: Seq<Seq<PropertyType>>, ids: Seq<u32>, r: ExportBytes)
    requires
        property_loadable(p, schema),
        crate::exporter::property_resolves(p, ids),
        ids.len() < 256,
    ensures
        decode_property(schema, cat(property_export(p, ids), r)) == Some((loaded_property(p, ids), r)),
{
    reveal(cat);
    let n = match p.target {
        AnimatedPropertyTarget::Joined(_) => 0int,
        AnimatedPropertyTarget::Separate(fs) => fs@.len() as int,
    };
    let h = ExportBytes {
        target_groups: seq![crate::exporter::low_byte(p.group_index as int)],
        target_props: seq![crate::exporter::low_byte(p.property_index as int)],
        num_fields: seq![crate::exporter::low_byte(n)],
        ..no_bytes()
    };
    let fx = match p.target {
        AnimatedPropertyTarget::Joined(f) => field_export(f, ids),
        AnimatedPropertyTarget::Separate(fs) => fields_export(fs@, ids),
    };
    assert(property_export(p, ids) == cat(h, fx));
    lemma_cat_assoc(h, fx, r);
    let r1 = cat(fx, r);
    let c = cat(h, r1);
    lemma_take_byte(p.group_index as u8, r1.target_groups);
    lemma_take_byte(p.property_index as u8, r1.target_props);
    lemma_take_byte(n as u8, r1.num_fields);
    assert(ExportBytes {
        target_groups: r1.target_groups,
        target_props: r1.target_props,
        num_fields: r1.num_fields,
        ..c
    } =~= r1);
    match p.target {
        AnimatedPropertyTarget::Joined(f) => {
            lemma_decode_field(f, schema[p.group_index as int][p.property_index as int], ids, r);
        },
        AnimatedPropertyTarget::Separate(fs) => {
            lemma_decode_fields(fs@, ids, r);
        },
    }
}

pub proof fn lemma_decode_properties(ps: Seq<AnimatedProperty>, schema: Seq<Seq<PropertyType>>, ids: Seq<u32>, r: ExportBytes)
    requires
        forall|k: int| 0 <= k < ps.len() ==> property_loadable(#[trigger] ps[k], schema),
        forall|k: int| 0 <= k < ps.len() ==> crate::exporter::property_resolves(#[trigger] ps[k], ids),
        ids.len() < 256,
    ensures
        decode_properties(schema, ps.len(), cat(properties_export(ps, ids), r)) == Some(
            (ps.map_values(|p: AnimatedProperty| loaded_property(p, ids)), r),
        ),
    decreases ps.len(),
{
    if ps.len() == 0 {
        assert(properties_export(ps, ids) == no_bytes());
        lemma_cat_empty(r);
        assert(ps.map_values(|p: AnimatedProperty| loaded_property(p, ids)) =~= Seq::<PropertyModel>::empty());
    } else {
        let p = ps[0];
        let tail = ps.drop_first();
        assert(ps =~= seq![p] + tail);
        lemma_properties_cons(p, tail, ids);
        lemma_cat_assoc(property_export(p, ids), properties_export(tail, ids), r);
        lemma_decode_property(p, schema, ids, cat(properties_export(tail, ids), r));
        assert forall|k: int| 0 <= k < tail.len() implies property_loadable(#[trigger] tail[k], schema)
            && crate::exporter::property_resolves(tail[k], ids) by {
            assert(tail[k] == ps[k + 1]);
        }
        lemma_decode_properties(tail, schema, ids, r);
        assert(ps.map_values(|p: AnimatedProperty| loaded_property(p, ids)) =~= seq![loaded_property(p, ids)]
            + tail.map_values(|p: AnimatedProperty| loaded_property(p, ids)));
    }
}

pub proof fn lemma_decode_group(ds: Seq<PropertyDefault>, tys: Seq<PropertyType>, ids: Seq<u32>, r: ExportBytes)
    requires
        ds.len() == tys.len(),
        forall|k: int| 0 <= k < ds.len() ==> value_matches(#[trigger] ds[k].value, tys[k]),
        forall|k: int| 0 <= k < ds.len() ==> crate::exporter::value_resolves(#[trigger] ds[k].value, ids),
        ids.len() < 256,
    ensures
        decode_group(tys, cat(group_export(ds, ids), r)) == Some((loaded_group(ds, ids), r)),
    decreases ds.len(),
{
    if ds.len() == 0 {
        assert(group_export(ds, ids) == no_bytes());
        lemma_cat_empty(r);
        assert(loaded_group(ds, ids) =~= Seq::<PropertyDefault>::empty());
    } else {
        let d = ds[0];
        let tail = ds.drop_first();
        assert(ds =~= seq![d] + tail);
        lemma_group_cons(d, tail, ids);
        lemma_cat_assoc(value_export(d.value, ids), group_export(tail, ids), r);
        lemma_decode_value(d.value, tys[0], ids, cat(group_export(tail, ids), r));
        assert forall|k: int| 0 <= k < tail.len() implies value_matches(#[trigger] tail[k].value, tys.drop_first()[k])
            && crate::exporter::value_resolves(tail[k].value, ids) by {
            assert(tail[k] == ds[k + 1]);
        }
        lemma_decode_group(tail, tys.drop_first(), ids, r);
        assert(loaded_group(ds, ids) =~= seq![loaded_default(d, ids)] + loaded_group(tail, ids));
    }
}

pub proof fn lemma_decode_groups(gs: Seq<PropertyGroup>, schema: Seq<Seq<PropertyType>>, ids: Seq<u32>, r: ExportBytes)
    requires
        gs.len() == schema.len(),
        forall|g: int|
            0 <= g < schema.len() ==> (#[trigger] gs[g]).defaults@.len() == schema[g].len() && forall|d: int|
                0 <= d < schema[g].len() ==> value_matches(#[trigger] gs[g].defaults@[d].value, schema[g][d]),
        forall|g: int, d: int|
            0 <= g < gs.len() && 0 <= d < gs[g].defaults@.len() ==> crate::exporter::value_resolves(
                #[trigger] gs[g].defaults@[d].value,
                ids,
            ),
        ids.len() < 256,
    ensures
        decode_groups(schema, cat(defaults_export(gs, ids), r)) == Some(
            (gs.map_values(|g: PropertyGroup| loaded_group(g.defaults@, ids)), r),
        ),
    decreases gs.len(),
{
    if gs.len() == 0 {
        assert(defaults_export(gs, ids) == no_bytes());
        lemma_cat_empty(r);
        assert(gs.map_values(|g: PropertyGroup| loaded_group(g.defaults@, ids)) =~= Seq::<Seq<PropertyDefault>>::empty());
    } else {
        let g = gs[0];
        let tail = gs.drop_first();
        assert(gs =~= seq![g] + tail);
        lemma_defaults_cons(g, tail, ids);
        lemma_cat_assoc(group_export(g.defaults@, ids), defaults_export(tail, ids), r);
        assert(g.defaults@.len() == schema[0].len());
        assert forall|k: int| 0 <= k < g.defaults@.len() implies value_matches(#[trigger] g.defaults@[k].value, schema[0][k])
            && crate::exporter::value_resolves(g.defaults@[k].value, ids) by {
            assert(gs[0].defaults@[k] == g.defaults@[k]);
        }
        lemma_decode_group(g.defaults@, schema[0], ids, cat(defaults_export(tail, ids), r));
        let st = schema.drop_first();
        assert forall|gg: int| 0 <= gg < st.len() implies (#[trigger] tail[gg]).defaults@.len() == st[gg].len()
            && forall|d: int| 0 <= d < st[gg].len() ==> value_matches(#[trigger] tail[gg].defaults@[d].value, st[gg][d]) by {
            assert(tail[gg] == gs[gg + 1]);
            assert(st[gg] == schema[gg + 1]);
        }
        assert forall|gg: int, d: int|
            0 <= gg < tail.len() && 0 <= d < tail[gg].defaults@.len() implies crate::exporter::value_resolves(
                #[trigger] tail[gg].defaults@[d].value,
                ids,
            ) by {
            assert(tail[gg] == gs[gg + 1]);
        }
        lemma_decode_groups(tail, st, ids, r);
        assert(gs.map_values(|g: PropertyGroup| loaded_group(g.defaults@, ids)) =~= seq![loaded_group(g.defaults@, ids)]
            + tail.map_values(|g: PropertyGroup| loaded_group(g.defaults@, ids)));
    }
}

pub proof fn lemma_active_resolve(ps: Seq<AnimatedProperty>, target: Clip, ids: Seq<u32>)
    requires
        forall|k: int|
            0 <= k < ps.len() ==> (crate::exporter::kept(target, #[trigger] ps[k]) ==> crate::exporter::property_resolves(ps[k], ids)),
    ensures
        forall|j: int|
            0 <= j < active_properties(ps, target).len() ==> crate::exporter::property_resolves(
                #[trigger] active_properties(ps, target)[j],
                ids,
            ),
    decreases ps.len(),
{
    if ps.len() > 0 {
        let init = ps.drop_last();
        assert forall|k: int|
            0 <= k < init.len() implies (crate::exporter::kept(target, #[trigger] init[k]) ==> crate::exporter::property_resolves(init[k], ids)) by {
            assert(init[k] == ps[k]);
        }
        lemma_active_resolve(init, target, ids);
        let prev = active_properties(init, target);
        if crate::exporter::kept(target, ps.last()) {
            assert(ps.last() == ps[ps.len() - 1]);
            assert forall|j: int|
                0 <= j < active_properties(ps, target).len() implies crate::exporter::property_resolves(
                    #[trigger] active_properties(ps, target)[j],
                    ids,
                ) by {
                if j < prev.len() {
                    assert(active_properties(ps, target)[j] == prev[j]);
                }
            }
        }
    }
}

pub open spec fn clip_head(start: u32, duration: u32, ty: u8) -> ExportBytes {
    ExportBytes {
        start_times: le_bytes_u32(start),
        durations: le_bytes_u32(duration),
        types: seq![ty],
        ..no_bytes()
    }
}

pub open spec fn animation_record(target: u8, schema: u8, count: u8) -> ExportBytes {
    ExportBytes { targets: seq![target], schemas: seq![schema], num_props: seq![count], ..no_bytes() }
}

proof fn lemma_decode_generator(
    gs: Seq<PropertyGroup>,
    schema: usize,
    start: u32,
    duration: u32,
    id: u32,
    schemas: Seq<Seq<Seq<PropertyType>>>,
    ids: Seq<u32>,
    r: ExportBytes,
)
    requires
        schema < schemas.len(),
        schema < 255,
        gs.len() == schemas[schema as int].len(),
        forall|g: int|
            0 <= g < schemas[schema as int].len() ==> (#[trigger] gs[g]).defaults@.len() == schemas[schema as int][g].len()
                && forall|d: int|
                0 <= d < schemas[schema as int][g].len() ==> value_matches(
                    #[trigger] gs[g].defaults@[d].value,
                    schemas[schema as int][g][d],
                ),
        forall|g: int, d: int|
            0 <= g < gs.len() && 0 <= d < gs[g].defaults@.len() ==> crate::exporter::value_resolves(
                #[trigger] gs[g].defaults@[d].value,
                ids,
            ),
        ids.len() < 256,
    ensures
        decode_clip(schemas, id, cat(cat(clip_head(start, duration, schema as u8), defaults_export(gs, ids)), r))
            == Some(
            (
                ClipModel {
                    id,
                    name: Seq::empty(),
                    schema,
                    source: SourceModel::Generator,
                    offset_frames: doubled(start),
                    duration_frames: doubled(duration),
                    property_groups: gs.map_values(|g: PropertyGroup| loaded_group(g.defaults@, ids)),
                    is_selected: false,
                },
                r,
            ),
        ),
{
    reveal(cat);
    let head = clip_head(start, duration, schema as u8);
    let dx = defaults_export(gs, ids);
    lemma_cat_assoc(head, dx, r);
    let r1 = cat(dx, r);
    lemma_take_word(start, r1.start_times);
    lemma_take_word(duration, r1.durations);
    lemma_take_byte(schema as u8, r1.types);
    let c0 = cat(head, r1);
    assert(ExportBytes { start_times: r1.start_times, durations: r1.durations, types: r1.types, ..c0 } =~= r1);
    lemma_decode_groups(gs, schemas[schema as int], ids, r);
}

proof fn lemma_decode_animation(
    active: Seq<AnimatedProperty>,
    target: int,
    schema: usize,
    start: u32,
    duration: u32,
    id: u32,
    schemas: Seq<Seq<Seq<PropertyType>>>,
    ids: Seq<u32>,
    r: ExportBytes,
)
    requires
        schema < schemas.len(),
        schema < 256,
        0 <= target < 255,
        active.len() < 256,
        forall|k: int| 0 <= k < active.len() ==> property_loadable(#[trigger] active[k], schemas[schema as int]),
        forall|k: int| 0 <= k < active.len() ==> crate::exporter::property_resolves(#[trigger] active[k], ids),
        ids.len() < 256,
    ensures
        decode_clip(
            schemas,
            id,
            cat(
                cat(cat(clip_head(start, duration, 255), animation_record(target as u8, schema as u8, active.len() as u8)),
                properties_export(active, ids)),
                r,
            ),
        ) == Some(
            (
                ClipModel {
                    id,
                    name: Seq::empty(),
                    schema,
                    source: SourceModel::Animation(
                        target as u32,
                        active.map_values(|p: AnimatedProperty| loaded_property(p, ids)),
                    ),
                    offset_frames: doubled(start),
                    duration_frames: doubled(duration),
                    property_groups: Seq::empty(),
                    is_selected: false,
                },
                r,
            ),
        ),
{
    reveal(cat);
    let head = clip_head(start, duration, 255);
    let h2 = animation_record(target as u8, schema as u8, active.len() as u8);
    let px = properties_export(active, ids);
    lemma_cat_assoc(cat(head, h2), px, r);
    lemma_cat_assoc(head, h2, cat(px, r));
    let r2 = cat(px, r);
    let r1 = cat(h2, r2);
    lemma_take_word(start, r1.start_times);
    lemma_take_word(duration, r1.durations);
    lemma_take_byte(255u8, r1.types);
    let c0 = cat(head, r1);
    assert(ExportBytes { start_times: r1.start_times, durations: r1.durations, types: r1.types, ..c0 } =~= r1);
    lemma_take_byte(target as u8, r2.targets);
    lemma_take_byte(schema as u8, r2.schemas);
    lemma_take_byte(active.len() as u8, r2.num_props);
    assert(ExportBytes { targets: r2.targets, schemas: r2.schemas, num_props: r2.num_props, ..r1 } =~= r2);
    lemma_decode_properties(active, schemas[schema as int], ids, r);
}

#[verifier::spinoff_prover]
#[verifier::rlimit(60)]
pub proof fn lemma_decode_clip(t: Timeline, schemas: Seq<Seq<Seq<PropertyType>>>, j: int, r: ExportBytes)
    requires
        loadable(t, schemas),
        crate::exporter::refs_valid(t),
        0 <= j < clip_refs(t).len(),
    ensures
        decode_clip(schemas, j as u32, cat(clip_export(t, clip_refs(t)[j]), r)) == Some((loaded_clip(t, j), r)),
{
    let rf = clip_refs(t)[j];
    let c = clip_at(t, rf);
    let ids = clip_ids(t);
    assert(ids.len() == clip_refs(t).len());
    assert(clip_loadable(t, t.tracks@[rf.0].clips@[rf.1], schemas));
    assert(crate::exporter::clip_exportable(t, t.tracks@[rf.0].clips@[rf.1]));
    match c.source {
        ClipSource::Generator => {
            assert(clip_export(t, rf) == cat(
                clip_head(rf.2 as u32, c.duration_frames, c.schema as u8),
                defaults_export(c.property_groups@, ids),
            ));
            lemma_decode_generator(
                c.property_groups@,
                c.schema,
                rf.2 as u32,
                c.duration_frames,
                j as u32,
                schemas,
                ids,
                r,
            );
        },
        ClipSource::Animation(a) => {
            let active = active_properties(a.properties@, target_of(t, a.target_clip));
            lemma_last_index_small(ids, a.target_clip);
            let ti = last_index(ids, a.target_clip);
            assert(clip_export(t, rf) == cat(
                cat(clip_head(rf.2 as u32, c.duration_frames, 255), animation_record(ti as u8, c.schema as u8, active.len() as u8)),
                properties_export(active, ids),
            ));
            lemma_active_resolve(a.properties@, target_of(t, a.target_clip), ids);
            lemma_decode_animation(active, ti, c.schema, rf.2 as u32, c.duration_frames, j as u32, schemas, ids, r);
        },
    }
}

pub proof fn lemma_decode_clips(t: Timeline, schemas: Seq<Seq<Seq<PropertyType>>>, j: int, r: ExportBytes)
    requires
        loadable(t, schemas),
        crate::exporter::refs_valid(t),
        0 <= j <= clip_refs(t).len(),
    ensures
        decode_clips(schemas, (clip_refs(t).len() - j) as nat, j as nat, cat(clips_between(t, j, clip_refs(t).len() as int), r))
            == Some((loaded_clips(t).subrange(j, clip_refs(t).len() as int), r)),
    decreases clip_refs(t).len() - j,
{
    let n = clip_refs(t).len() as int;
    if j == n {
        lemma_cat_empty(r);
        assert(loaded_clips(t).subrange(j, n) =~= Seq::<ClipModel>::empty());
    } else {
        lemma_cat_assoc(clip_export(t, clip_refs(t)[j]), clips_between(t, j + 1, n), r);
        lemma_decode_clip(t, schemas, j, cat(clips_between(t, j + 1, n), r));
        lemma_decode_clips(t, schemas, j + 1, r);
        assert(loaded_clips(t).subrange(j, n) =~= seq![loaded_clip(t, j)] + loaded_clips(t).subrange(j + 1, n));
    }
}

// ---- The columns line up with their counts ----

/// Each column holds as many bytes as its section's record count says: 4 per clip in the time
/// columns, 1 per record in the other fixed columns, 4 per curve in the offset column, and whole
/// 4-byte segment durations.
pub open spec fn shaped(e: ExportBytes) -> bool {
    &&& e.start_times.len() == 4 * e.types.len()
    &&& e.durations.len() == 4 * e.types.len()
    &&& e.schemas.len() == e.targets.len()
    &&& e.num_props.len() == e.targets.len()
    &&& e.target_props.len() == e.target_groups.len()
    &&& e.num_fields.len() == e.target_groups.len()
    &&& e.local_offsets.len() == 4 * e.num_segments.len()
    &&& e.segment_durations.len() % 4 == 0
}

/// Shaped, and no clip records.
pub open spec fn shaped_inner(e: ExportBytes) -> bool {
    shaped(e) && e.types.len() == 0
}

pub proof fn lemma_cat_shaped(a: ExportBytes, b: ExportBytes)
    requires
        shaped(a),
        shaped(b),
    ensures
        shaped(cat(a, b)),
        cat(a, b).types.len() == a.types.len() + b.types.len(),
{
    reveal(cat);
}

pub proof fn lemma_shaped_segments(segs: Seq<CurveSegment>, ids: Seq<u32>)
    ensures
        shaped_inner(segments_export(segs, ids)),
    decreases segs.len(),
{
    if segs.len() > 0 {
        lemma_shaped_segments(segs.drop_last(), ids);
        lemma_cat_shaped(segments_export(segs.drop_last(), ids), segment_export(segs.last(), ids));
    }
}

pub proof fn lemma_shaped_field(f: AnimatedPropertyField, ids: Seq<u32>)
    ensures
        shaped_inner(field_export(f, ids)),
{
    lemma_shaped_segments(f.segments@, ids);
    let h = ExportBytes {
        local_offsets: le_bytes_u32(f.local_offset_frames as u32),
        num_segments: seq![crate::exporter::low_byte(f.segments@.len() as int)],
        ..value_export(f.start_value, ids)
    };
    lemma_cat_shaped(h, segments_export(f.segments@, ids));
}

pub proof fn lemma_shaped_fields(fs: Seq<AnimatedPropertyField>, ids: Seq<u32>)
    ensures
        shaped_inner(fields_export(fs, ids)),
    decreases fs.len(),
{
    if fs.len() > 0 {
        lemma_shaped_fields(fs.drop_last(), ids);
        lemma_shaped_field(fs.last(), ids);
        lemma_cat_shaped(fields_export(fs.drop_last(), ids), field_export(fs.last(), ids));
    }
}

pub proof fn lemma_shaped_property(p: AnimatedProperty, ids: Seq<u32>)
    ensures
        shaped_inner(property_export(p, ids)),
{
    let n = match p.target {
        AnimatedPropertyTarget::Joined(_) => 0int,
        AnimatedPropertyTarget::Separate(fs) => fs@.len() as int,
    };
    let h = ExportBytes {
        target_groups: seq![crate::exporter::low_byte(p.group_index as int)],
        target_props: seq![crate::exporter::low_byte(p.property_index as int)],
        num_fields: seq![crate::exporter::low_byte(n)],
        ..no_bytes()
    };
    match p.target {
        AnimatedPropertyTarget::Joined(f) => {
            lemma_shaped_field(f, ids);
            lemma_cat_shaped(h, field_export(f, ids));
        },
        AnimatedPropertyTarget::Separate(fs) => {
            lemma_shaped_fields(fs@, ids);
            lemma_cat_shaped(h, fields_export(fs@, ids));
        },
    }
}

pub proof fn lemma_shaped_properties(ps: Seq<AnimatedProperty>, ids: Seq<u32>)
    ensures
        shaped_inner(properties_export(ps, ids)),
    decreases ps.len(),
{
    if ps.len() > 0 {
        lemma_shaped_properties(ps.drop_last(), ids);
        lemma_shaped_property(ps.last(), ids);
        lemma_cat_shaped(properties_export(ps.drop_last(), ids), property_export(ps.last(), ids));
    }
}

pub proof fn lemma_shaped_group(ds: Seq<PropertyDefault>, ids: Seq<u32>)
    ensures
        shaped_inner(group_export(ds, ids)),
    decreases ds.len(),
{
    if ds.len() > 0 {
        lemma_shaped_group(ds.drop_last(), ids);
        lemma_cat_shaped(group_export(ds.drop_last(), ids), value_export(ds.last().value, ids));
    }
}

pub proof fn lemma_shaped_defaults(gs: Seq<PropertyGroup>, ids: Seq<u32>)
    ensures
        shaped_inner(defaults_export(gs, ids)),
    decreases gs.len(),
{
    if gs.len() > 0 {
        lemma_shaped_defaults(gs.drop_last(), ids);
        lemma_shaped_group(gs.last().defaults@, ids);
        lemma_cat_shaped(defaults_export(gs.drop_last(), ids), group_export(gs.last().defaults@, ids));
    }
}

pub proof fn lemma_shaped_clips(t: Timeline, n: int)
    requires
        0 <= n,
    ensures
        shaped(clips_export(t, n)),
        clips_export(t, n).types.len() == n,
    decreases n,
{
    if n > 0 {
        lemma_shaped_clips(t, n - 1);
        let rf = clip_refs(t)[n - 1];
        let c = clip_at(t, rf);
        let ids = clip_ids(t);
        match c.source {
            ClipSource::Generator => {
                let head = clip_head(rf.2 as u32, c.duration_frames, crate::exporter::low_byte(c.schema as int));
                lemma_shaped_defaults(c.property_groups@, ids);
                lemma_cat_shaped(head, defaults_export(c.property_groups@, ids));
                assert(clip_export(t, rf) == cat(head, defaults_export(c.property_groups@, ids)));
            },
            ClipSource::Animation(a) => {
                let active = active_properties(a.properties@, target_of(t, a.target_clip));
                let head = clip_head(rf.2 as u32, c.duration_frames, 255);
                let h2 = animation_record(
                    crate::exporter::low_byte(last_index(ids, a.target_clip)),
                    crate::exporter::low_byte(c.schema as int),
                    crate::exporter::low_byte(active.len() as int),
                );
                lemma_cat_shaped(head, h2);
                lemma_shaped_properties(active, ids);
                lemma_cat_shaped(cat(head, h2), properties_export(active, ids));
                assert(clip_export(t, rf) == cat(cat(head, h2), properties_export(active, ids)));
            },
        }
        lemma_cat_shaped(clips_export(t, n - 1), clip_export(t, rf));
    }
}

// ---- The blob's sections ----

pub proof fn lemma_size_word(n: nat)
    requires
        n < 0x1_0000_0000,
    ensures
        crate::exporter::size_word(n) == le_bytes_u32(n as u32),
{
}

pub proof fn lemma_take_section(count: u8, a: Seq<u8>, b: Seq<u8>, c: Seq<u8>, rest: Seq<u8>)
    requires
        a.len() + b.len() + c.len() < 0x1_0000_0000,
    ensures
        take_section(section(count, a, b, c) + rest) == Some((count, a + b + c, rest)),
{
    let n = a.len() + b.len() + c.len();
    lemma_size_word(n);
    let abc = a + b + c;
    let tail = le_bytes_u32(n as u32) + (abc + rest);
    assert(section(count, a, b, c) + rest =~= seq![count] + tail);
    lemma_take_byte(count, tail);
    lemma_take_word(n as u32, abc + rest);
    assert((abc + rest).take(n as int) =~= abc);
    assert((abc + rest).skip(n as int) =~= rest);
}

pub proof fn lemma_take_column(a: Seq<u8>, rest: Seq<u8>)
    requires
        a.len() < 0x1_0000_0000,
    ensures
        take_column(column(a) + rest) == Some((a, rest)),
{
    lemma_size_word(a.len());
    assert(column(a) + rest =~= le_bytes_u32(a.len() as u32) + (a + rest));
    lemma_take_word(a.len() as u32, a + rest);
    assert((a + rest).take(a.len() as int) =~= a);
    assert((a + rest).skip(a.len() as int) =~= rest);
}

/// The record sections of an export, with their counts' low bytes.
pub open spec fn sections_of(e: ExportBytes) -> Sections {
    Sections {
        nc: crate::exporter::low_byte(e.types.len() as int),
        s1: e.start_times + e.durations + e.types,
        na: crate::exporter::low_byte(e.targets.len() as int),
        s2: e.targets + e.schemas + e.num_props,
        np: crate::exporter::low_byte(e.target_groups.len() as int),
        s3: e.target_groups + e.target_props + e.num_fields,
        nf: crate::exporter::low_byte(e.num_segments.len() as int),
        s4: e.local_offsets + e.num_segments + Seq::<u8>::empty(),
        ns: crate::exporter::low_byte((e.segment_durations.len() / 4) as int),
        s5: e.segment_durations + e.interpolations + Seq::<u8>::empty(),
    }
}

/// The sections of a shaped export split back into its columns.
pub proof fn lemma_split_columns(e: ExportBytes)
    requires
        shaped(e),
        counts_fit(e),
    ensures
        sections_fit(sections_of(e)),
        split_columns(sections_of(e), ValueColumns { v0: e.val0, v1: e.val1, v2: e.val2, v3: e.val3 }) == e,
{
    let sc = sections_of(e);
    let nc = e.types.len() as int;
    let na = e.targets.len() as int;
    let np = e.target_groups.len() as int;
    let nf = e.num_segments.len() as int;
    let ns = (e.segment_durations.len() / 4) as int;
    assert(sc.nc == nc);
    assert(sc.na == na);
    assert(sc.np == np);
    assert(sc.nf == nf);
    assert(sc.ns == ns);
    assert(sc.s1.take(4 * nc) =~= e.start_times);
    assert(sc.s1.subrange(4 * nc, 8 * nc) =~= e.durations);
    assert(sc.s1.skip(8 * nc) =~= e.types);
    assert(sc.s2.take(na) =~= e.targets);
    assert(sc.s2.subrange(na, 2 * na) =~= e.schemas);
    assert(sc.s2.skip(2 * na) =~= e.num_props);
    assert(sc.s3.take(np) =~= e.target_groups);
    assert(sc.s3.subrange(np, 2 * np) =~= e.target_props);
    assert(sc.s3.skip(2 * np) =~= e.num_fields);
    assert(sc.s4.take(4 * nf) =~= e.local_offsets);
    assert(sc.s4.skip(4 * nf) =~= e.num_segments);
    assert(sc.s5.take(4 * ns) =~= e.segment_durations);
    assert(sc.s5.skip(4 * ns) =~= e.interpolations);
    assert(split_columns(sc, ValueColumns { v0: e.val0, v1: e.val1, v2: e.val2, v3: e.val3 }) =~= e);
}

pub proof fn lemma_take_sections(e: ExportBytes, rest: Seq<u8>)
    requires
        counts_fit(e),
    ensures
        take_sections(section(
            crate::exporter::low_byte(e.types.len() as int),
            e.start_times,
            e.durations,
            e.types,
        ) + (section(crate::exporter::low_byte(e.targets.len() as int), e.targets, e.schemas, e.num_props) + (section(
            crate::exporter::low_byte(e.target_groups.len() as int),
            e.target_groups,
            e.target_props,
            e.num_fields,
        ) + (section(crate::exporter::low_byte(e.num_segments.len() as int), e.local_offsets, e.num_segments, Seq::empty())
            + (section(
            crate::exporter::low_byte((e.segment_durations.len() / 4) as int),
            e.segment_durations,
            e.interpolations,
            Seq::empty(),
        ) + rest))))) == Some((sections_of(e), rest)),
{
    let sc = sections_of(e);
    let s5 = section(sc.ns, e.segment_durations, e.interpolations, Seq::empty());
    let s4 = section(sc.nf, e.local_offsets, e.num_segments, Seq::empty());
    let s3 = section(sc.np, e.target_groups, e.target_props, e.num_fields);
    let s2 = section(sc.na, e.targets, e.schemas, e.num_props);
    let s1 = section(sc.nc, e.start_times, e.durations, e.types);
    let b6 = rest;
    let b5 = s5 + b6;
    let b4 = s4 + b5;
    let b3 = s3 + b4;
    let b2 = s2 + b3;
    lemma_take_section(sc.nc, e.start_times, e.durations, e.types, b2);
    lemma_take_section(sc.na, e.targets, e.schemas, e.num_props, b3);
    lemma_take_section(sc.np, e.target_groups, e.target_props, e.num_fields, b4);
    lemma_take_section(sc.nf, e.local_offsets, e.num_segments, Seq::empty(), b5);
    lemma_take_section(sc.ns, e.segment_durations, e.interpolations, Seq::empty(), b6);
}

pub proof fn lemma_take_value_columns(e: ExportBytes, rest: Seq<u8>)
    requires
        counts_fit(e),
    ensures
        take_value_columns(column(e.val0) + (column(e.val1) + (column(e.val2) + (column(e.val3) + rest))))
            == Some((ValueColumns { v0: e.val0, v1: e.val1, v2: e.val2, v3: e.val3 }, rest)),
{
    let b9 = column(e.val3) + rest;
    let b8 = column(e.val2) + b9;
    let b7 = column(e.val1) + b8;
    lemma_take_column(e.val0, b7);
    lemma_take_column(e.val1, b8);
    lemma_take_column(e.val2, b9);
    lemma_take_column(e.val3, rest);
}

pub proof fn lemma_blob_split(d: u32, e: ExportBytes, rest: Seq<u8>)
    ensures
        blob_bytes(d, e) + rest == le_bytes_u32(d) + (section(
            crate::exporter::low_byte(e.types.len() as int),
            e.start_times,
            e.durations,
            e.types,
        ) + (section(crate::exporter::low_byte(e.targets.len() as int), e.targets, e.schemas, e.num_props) + (section(
            crate::exporter::low_byte(e.target_groups.len() as int),
            e.target_groups,
            e.target_props,
            e.num_fields,
        ) + (section(crate::exporter::low_byte(e.num_segments.len() as int), e.local_offsets, e.num_segments, Seq::empty())
            + (section(
            crate::exporter::low_byte((e.segment_durations.len() / 4) as int),
            e.segment_durations,
            e.interpolations,
            Seq::empty(),
        ) + (column(e.val0) + (column(e.val1) + (column(e.val2) + (column(e.val3) + rest))))))))),
{
    let s1 = section(crate::exporter::low_byte(e.types.len() as int), e.start_times, e.durations, e.types);
    let s2 = section(crate::exporter::low_byte(e.targets.len() as int), e.targets, e.schemas, e.num_props);
    let s3 = section(crate::exporter::low_byte(e.target_groups.len() as int), e.target_groups, e.target_props, e.num_fields);
    let s4 = section(crate::exporter::low_byte(e.num_segments.len() as int), e.local_offsets, e.num_segments, Seq::empty());
    let s5 = section(
        crate::exporter::low_byte((e.segment_durations.len() / 4) as int),
        e.segment_durations,
        e.interpolations,
        Seq::empty(),
    );
    let l = le_bytes_u32(d);
    let c0 = column(e.val0);
    let c1 = column(e.val1);
    let c2 = column(e.val2);
    let c3 = column(e.val3);
    let p1 = l + s1;
    let p2 = p1 + s2;
    let p3 = p2 + s3;
    let p4 = p3 + s4;
    let p5 = p4 + s5;
    let p6 = p5 + c0;
    let p7 = p6 + c1;
    let p8 = p7 + c2;
    assert(blob_bytes(d, e) == p8 + c3);
    let r9 = c3 + rest;
    let r8 = c2 + r9;
    let r7 = c1 + r8;
    let r6 = c0 + r7;
    let r5 = s5 + r6;
    let r4 = s4 + r5;
    let r3 = s3 + r4;
    let r2 = s2 + r3;
    let r1 = s1 + r2;
    lemma_assoc3(p8, c3, rest);
    lemma_assoc3(p7, c2, r9);
    lemma_assoc3(p6, c1, r8);
    lemma_assoc3(p5, c0, r7);
    lemma_assoc3(p4, s5, r6);
    lemma_assoc3(p3, s4, r5);
    lemma_assoc3(p2, s3, r4);
    lemma_assoc3(p1, s2, r3);
    lemma_assoc3(l, s1, r2);
}

pub proof fn lemma_assoc3(a: Seq<u8>, b: Seq<u8>, c: Seq<u8>)
    ensures
        (a + b) + c == a + (b + c),
{
    assert((a + b) + c =~= a + (b + c));
}

pub proof fn lemma_decode_sections(d: u32, e: ExportBytes, rest: Seq<u8>)
    requires
        shaped(e),
        counts_fit(e),
    ensures
        decode_sections(blob_bytes(d, e) + rest) == Some((d, e.types.len() as u8, e, rest)),
{
    let vtail = column(e.val0) + (column(e.val1) + (column(e.val2) + (column(e.val3) + rest)));
    lemma_blob_split(d, e, rest);
    lemma_take_sections(e, vtail);
    lemma_take_value_columns(e, rest);
    lemma_split_columns(e);
    let sc = sections_of(e);
    let b1 = section(sc.nc, e.start_times, e.durations, e.types) + (section(sc.na, e.targets, e.schemas, e.num_props) + (section(
        sc.np,
        e.target_groups,
        e.target_props,
        e.num_fields,
    ) + (section(sc.nf, e.local_offsets, e.num_segments, Seq::empty()) + (section(
        sc.ns,
        e.segment_durations,
        e.interpolations,
        Seq::empty(),
    ) + vtail))));
    lemma_take_word(d, b1);
}

/// Loading what an export wrote gives back the timeline's clips, in track order: each clip is
/// numbered by its position, its start frame and duration are doubled (the player counts frames
/// at twice the editor's rate), clip references name positions, generator clips keep their
/// default values and animation clips the properties that the export kept; the project
/// duration is the end of the last-ending clip, and what follows the blob is left unread. This
/// holds of every timeline that can be exported, whose clips fit the schema table and whose
/// counts fit the blob's fields.
pub proof fn law_export_then_load(t: Timeline, schemas: Seq<Seq<Seq<PropertyType>>>, rest: Seq<u8>)
    requires
        loadable(t, schemas),
    ensures
        decode_timeline(timeline_bytes(t) + rest, schemas) == Some(
            (duration_upto(t, clip_refs(t).len() as int) as u32, loaded_clips(t), rest),
        ),
{
    let n = clip_refs(t).len() as int;
    let e = clips_export(t, n);
    crate::exporter::lemma_refs_valid(t, t.tracks@.len() as int);
    lemma_shaped_clips(t, n);
    lemma_decode_sections(duration_upto(t, n) as u32, e, rest);
    lemma_clips_between(t, 0, n);
    lemma_cat_empty(clips_between(t, 0, n));
    lemma_decode_clips(t, schemas, 0, no_bytes());
    assert(loaded_clips(t).subrange(0, n) =~= loaded_clips(t));
}

} // verus!
