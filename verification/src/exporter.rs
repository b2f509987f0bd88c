//! Exporting a timeline as the player's blob: the clips are flattened in track order and their
//! data is laid out column by column, each column with its byte count in front.
use vstd::prelude::*;
use crate::binary_writer::{le_bytes_u32, Vector2, Writable};
use crate::timeline::{
    AnimatedProperty, AnimatedPropertyField, AnimatedPropertyTarget, Clip, ClipSource,
    CurveInterpolation, CurveSegment, PropertyGroup, PropertyValue, Timeline, start_of,
    timeline_fits, track_fits, end_at, lemma_clip_in_track,
};

verus! {

/// The columns of an exported timeline, as bytes.
#[verifier::ext_equal]
pub struct ExportBytes {
    pub start_times: Seq<u8>,
    pub durations: Seq<u8>,
    pub types: Seq<u8>,
    pub targets: Seq<u8>,
    pub schemas: Seq<u8>,
    pub num_props: Seq<u8>,
    pub target_groups: Seq<u8>,
    pub target_props: Seq<u8>,
    pub num_fields: Seq<u8>,
    pub local_offsets: Seq<u8>,
    pub num_segments: Seq<u8>,
    pub segment_durations: Seq<u8>,
    pub interpolations: Seq<u8>,
    pub val0: Seq<u8>,
    pub val1: Seq<u8>,
    pub val2: Seq<u8>,
    pub val3: Seq<u8>,
}

/// No records at all.
pub open spec fn no_bytes() -> ExportBytes {
    ExportBytes {
        start_times: Seq::empty(),
        durations: Seq::empty(),
        types: Seq::empty(),
        targets: Seq::empty(),
        schemas: Seq::empty(),
        num_props: Seq::empty(),
        target_groups: Seq::empty(),
        target_props: Seq::empty(),
        num_fields: Seq::empty(),
        local_offsets: Seq::empty(),
        num_segments: Seq::empty(),
        segment_durations: Seq::empty(),
        interpolations: Seq::empty(),
        val0: Seq::empty(),
        val1: Seq::empty(),
        val2: Seq::empty(),
        val3: Seq::empty(),
    }
}

/// The records of `a`, then those of `b`, column by column.
#[verifier::opaque]
pub open spec fn cat(a: ExportBytes, b: ExportBytes) -> ExportBytes {
    ExportBytes {
        start_times: a.start_times + b.start_times,
        durations: a.durations + b.durations,
        types: a.types + b.types,
        targets: a.targets + b.targets,
        schemas: a.schemas + b.schemas,
        num_props: a.num_props + b.num_props,
        target_groups: a.target_groups + b.target_groups,
        target_props: a.target_props + b.target_props,
        num_fields: a.num_fields + b.num_fields,
        local_offsets: a.local_offsets + b.local_offsets,
        num_segments: a.num_segments + b.num_segments,
        segment_durations: a.segment_durations + b.segment_durations,
        interpolations: a.interpolations + b.interpolations,
        val0: a.val0 + b.val0,
        val1: a.val1 + b.val1,
        val2: a.val2 + b.val2,
        val3: a.val3 + b.val3,
    }
}

pub proof fn lemma_cat_assoc(a: ExportBytes, b: ExportBytes, c: ExportBytes)
    ensures
        cat(cat(a, b), c) == cat(a, cat(b, c)),
{
    reveal(cat);
    assert(cat(cat(a, b), c) =~= cat(a, cat(b, c)));
}

pub proof fn lemma_cat_empty(a: ExportBytes)
    ensures
        cat(a, no_bytes()) == a,
        cat(no_bytes(), a) == a,
{
    reveal(cat);
    assert(cat(a, no_bytes()) =~= a);
    assert(cat(no_bytes(), a) =~= a);
}

/// The low byte of a count or index, as a byte column stores it.
pub open spec fn low_byte(n: int) -> u8 {
    (n % 256) as u8
}

/// The float components of a value, as bit patterns, in order; a clip reference has none.
pub open spec fn value_fields(v: PropertyValue) -> Seq<u32> {
    match v {
        PropertyValue::Float(a) => seq![a],
        PropertyValue::Vec2(a, b) => seq![a, b],
        PropertyValue::Vec3(a, b, c) => seq![a, b, c],
        PropertyValue::Vec4(a, b, c, d) => seq![a, b, c, d],
        PropertyValue::RgbColor(a, b, c) => seq![a, b, c],
        PropertyValue::RgbaColor(a, b, c, d) => seq![a, b, c, d],
        PropertyValue::Rotation(a, b, c, d) => seq![a, b, c, d],
        PropertyValue::ClipReference(_) => Seq::empty(),
    }
}

/// Position of the last clip with id `id` in the flattened clip list, or -1.
pub open spec fn last_index(ids: Seq<u32>, id: u32) -> int
    decreases ids.len(),
{
    if ids.len() == 0 {
        -1
    } else if ids.last() == id {
        ids.len() - 1
    } else {
        last_index(ids.drop_last(), id)
    }
}

/// The byte that stands for a clip reference: the referenced clip's position in the export,
/// or 255 for no clip.
pub open spec fn ref_byte(ids: Seq<u32>, r: Option<u32>) -> u8 {
    match r {
        Some(id) => low_byte(last_index(ids, id)),
        None => 255,
    }
}

/// The little-endian bytes of component `k` of a value, if it has one.
pub open spec fn field_bytes(f: Seq<u32>, k: int) -> Seq<u8> {
    if k < f.len() {
        le_bytes_u32(f[k])
    } else {
        Seq::empty()
    }
}

/// What a property value adds to the four value columns: a clip reference one byte to the
/// first, any other value one component to each of the first columns.
pub open spec fn value_export(v: PropertyValue, ids: Seq<u32>) -> ExportBytes {
    match v {
        PropertyValue::ClipReference(r) => ExportBytes { val0: seq![ref_byte(ids, r)], ..no_bytes() },
        _ => {
            let f = value_fields(v);
            ExportBytes {
                val0: field_bytes(f, 0),
                val1: field_bytes(f, 1),
                val2: field_bytes(f, 2),
                val3: field_bytes(f, 3),
                ..no_bytes()
            }
        },
    }
}

/// A clip reference among the values that an export writes resolves to a clip.
pub open spec fn value_resolves(v: PropertyValue, ids: Seq<u32>) -> bool {
    match v {
        PropertyValue::ClipReference(Some(id)) => ids.contains(id),
        _ => true,
    }
}

/// The bytes of a segment's easing: 0 for linear, or 1 and the two control points.
pub open spec fn interpolation_bytes(i: CurveInterpolation) -> Seq<u8> {
    match i {
        CurveInterpolation::Linear => seq![0u8],
        CurveInterpolation::CubicBezier(b) => seq![1u8] + b.c1.encoding() + b.c2.encoding(),
    }
}

/// What a curve segment adds: its duration, end value and easing.
pub open spec fn segment_export(s: CurveSegment, ids: Seq<u32>) -> ExportBytes {
    ExportBytes {
        segment_durations: le_bytes_u32(s.duration_frames),
        interpolations: interpolation_bytes(s.interpolation),
        ..value_export(s.end_value, ids)
    }
}

pub open spec fn segments_export(segs: Seq<CurveSegment>, ids: Seq<u32>) -> ExportBytes
    decreases segs.len(),
{
    if segs.len() == 0 {
        no_bytes()
    } else {
        cat(segments_export(segs.drop_last(), ids), segment_export(segs.last(), ids))
    }
}

/// What an animation curve adds: its start offset, start value and segment count, then its
/// segments.
pub open spec fn field_export(f: AnimatedPropertyField, ids: Seq<u32>) -> ExportBytes {
    cat(
        ExportBytes {
            local_offsets: le_bytes_u32(f.local_offset_frames as u32),
            num_segments: seq![low_byte(f.segments@.len() as int)],
            ..value_export(f.start_value, ids)
        },
        segments_export(f.segments@, ids),
    )
}

pub open spec fn fields_export(fs: Seq<AnimatedPropertyField>, ids: Seq<u32>) -> ExportBytes
    decreases fs.len(),
{
    if fs.len() == 0 {
        no_bytes()
    } else {
        cat(fields_export(fs.drop_last(), ids), field_export(fs.last(), ids))
    }
}

/// What an animated property adds: its target group and property, its field count (0 for a
/// property animated as a whole), then its curves.
pub open spec fn property_export(p: AnimatedProperty, ids: Seq<u32>) -> ExportBytes {
    let head = |n: int|
        ExportBytes {
            target_groups: seq![low_byte(p.group_index as int)],
            target_props: seq![low_byte(p.property_index as int)],
            num_fields: seq![low_byte(n)],
            ..no_bytes()
        };
    match p.target {
        AnimatedPropertyTarget::Joined(f) => cat(head(0), field_export(f, ids)),
        AnimatedPropertyTarget::Separate(fs) => cat(head(fs@.len() as int), fields_export(fs@, ids)),
    }
}

pub open spec fn properties_export(ps: Seq<AnimatedProperty>, ids: Seq<u32>) -> ExportBytes
    decreases ps.len(),
{
    if ps.len() == 0 {
        no_bytes()
    } else {
        cat(properties_export(ps.drop_last(), ids), property_export(ps.last(), ids))
    }
}

/// What the default values of a generator clip add, group by group.
pub open spec fn defaults_export(gs: Seq<PropertyGroup>, ids: Seq<u32>) -> ExportBytes
    decreases gs.len(),
{
    if gs.len() == 0 {
        no_bytes()
    } else {
        cat(defaults_export(gs.drop_last(), ids), group_export(gs.last().defaults@, ids))
    }
}

pub open spec fn group_export(ds: Seq<crate::timeline::PropertyDefault>, ids: Seq<u32>) -> ExportBytes
    decreases ds.len(),
{
    if ds.len() == 0 {
        no_bytes()
    } else {
        cat(group_export(ds.drop_last(), ids), value_export(ds.last().value, ids))
    }
}

/// A clip's place in the flattened clip list: its track, its index on the track and its start
/// frame.
pub type ClipRef = (int, int, int);

/// The clips of the first `n` tracks, in track order.
pub open spec fn refs_upto(t: Timeline, n: int) -> Seq<ClipRef>
    decreases n,
{
    if n <= 0 {
        Seq::empty()
    } else {
        let k = n - 1;
        let clips = t.tracks@[k].clips@;
        refs_upto(t, n - 1) + Seq::new(clips.len(), |i: int| (k, i, start_of(clips, i)))
    }
}

/// Every clip of the timeline, in track order.
pub open spec fn clip_refs(t: Timeline) -> Seq<ClipRef> {
    refs_upto(t, t.tracks@.len() as int)
}

pub open spec fn clip_at(t: Timeline, r: ClipRef) -> Clip {
    t.tracks@[r.0].clips@[r.1]
}

/// The ids of the clips in track order.
pub open spec fn clip_ids(t: Timeline) -> Seq<u32> {
    clip_refs(t).map_values(|r: ClipRef| clip_at(t, r).id)
}

/// An animated property is exported when its default in the target clip is not overridden.
pub open spec fn kept(target: Clip, p: AnimatedProperty) -> bool {
    !target.property_groups@[p.group_index as int].defaults@[p.property_index as int].is_override
}

/// The animated properties that an export keeps, in order.
pub open spec fn active_properties(ps: Seq<AnimatedProperty>, target: Clip) -> Seq<AnimatedProperty>
    decreases ps.len(),
{
    if ps.len() == 0 {
        Seq::empty()
    } else {
        let prev = active_properties(ps.drop_last(), target);
        if kept(target, ps.last()) {
            prev.push(ps.last())
        } else {
            prev
        }
    }
}

/// The clip that an animation clip animates.
pub open spec fn target_of(t: Timeline, target_id: u32) -> Clip {
    clip_at(t, clip_refs(t)[last_index(clip_ids(t), target_id)])
}

/// What a clip adds: its start, duration and type (its schema index, or 255 for an
/// animation), then its default values (a generator) or its animation record and kept
/// properties (an animation).
pub open spec fn clip_export(t: Timeline, r: ClipRef) -> ExportBytes {
    let c = clip_at(t, r);
    let ids = clip_ids(t);
    let head = |ty: u8|
        ExportBytes {
            start_times: le_bytes_u32(r.2 as u32),
            durations: le_bytes_u32(c.duration_frames),
            types: seq![ty],
            ..no_bytes()
        };
    match c.source {
        ClipSource::Generator => cat(head(low_byte(c.schema as int)), defaults_export(c.property_groups@, ids)),
        ClipSource::Animation(a) => {
            let active = active_properties(a.properties@, target_of(t, a.target_clip));
            cat(
                cat(
                    head(255),
                    ExportBytes {
                                    targets: seq![low_byte(last_index(ids, a.target_clip))],
                        schemas: seq![low_byte(c.schema as int)],
                        num_props: seq![low_byte(active.len() as int)],
                        ..no_bytes()
                    },
                ),
                properties_export(active, ids),
            )
        },
    }
}

/// What the first `n` clips of the flattened list add.
pub open spec fn clips_export(t: Timeline, n: int) -> ExportBytes
    decreases n,
{
    if n <= 0 {
        no_bytes()
    } else {
        cat(clips_export(t, n - 1), clip_export(t, clip_refs(t)[n - 1]))
    }
}

/// The end frame of the last-ending clip among the first `n` of the flattened list, or 0.
pub open spec fn duration_upto(t: Timeline, n: int) -> int
    decreases n,
{
    if n <= 0 {
        0
    } else {
        let r = clip_refs(t)[n - 1];
        let e = r.2 + clip_at(t, r).duration_frames;
        let m = duration_upto(t, n - 1);
        if e > m {
            e
        } else {
            m
        }
    }
}

/// A column's byte count as the 32-bit word in front of it: its low 32 bits.
pub open spec fn size_word(n: nat) -> Seq<u8> {
    le_bytes_u32((n % 0x1_0000_0000) as u32)
}

/// The exported blob of a timeline: the project duration, then for clips, animation clips,
/// animated properties, curves and segments in turn the low byte of their count (each record
/// puts one byte in the type, target, target group and segment count columns, and four in the
/// segment duration column) and their columns behind one byte count, then the four value
/// columns, each behind its byte count.
pub open spec fn blob_bytes(duration: u32, e: ExportBytes) -> Seq<u8> {
    le_bytes_u32(duration) + section(low_byte(e.types.len() as int), e.start_times, e.durations, e.types)
        + section(low_byte(e.targets.len() as int), e.targets, e.schemas, e.num_props) + section(
        low_byte(e.target_groups.len() as int),
        e.target_groups,
        e.target_props,
        e.num_fields,
    ) + section(low_byte(e.num_segments.len() as int), e.local_offsets, e.num_segments, Seq::empty())
        + section(
        low_byte((e.segment_durations.len() / 4) as int),
        e.segment_durations,
        e.interpolations,
        Seq::empty(),
    ) + column(e.val0) + column(e.val1) + column(e.val2) + column(e.val3)
}

/// A record count's low byte, then up to three columns behind their total byte count.
pub open spec fn section(count: u8, a: Seq<u8>, b: Seq<u8>, c: Seq<u8>) -> Seq<u8> {
    seq![count] + size_word(a.len() + b.len() + c.len()) + a + b + c
}

/// A column behind its byte count.
pub open spec fn column(a: Seq<u8>) -> Seq<u8> {
    size_word(a.len()) + a
}

/// The exported blob of a timeline.
pub open spec fn timeline_bytes(t: Timeline) -> Seq<u8> {
    let n = clip_refs(t).len() as int;
    blob_bytes(duration_upto(t, n) as u32, clips_export(t, n))
}

/// Every clip reference among a curve's values resolves to a clip.
pub open spec fn field_resolves(f: AnimatedPropertyField, ids: Seq<u32>) -> bool {
    &&& value_resolves(f.start_value, ids)
    &&& forall|k: int| 0 <= k < f.segments@.len() ==> value_resolves(#[trigger] f.segments@[k].end_value, ids)
}

/// Every clip reference among an animated property's values resolves to a clip.
pub open spec fn property_resolves(p: AnimatedProperty, ids: Seq<u32>) -> bool {
    match p.target {
        AnimatedPropertyTarget::Joined(f) => field_resolves(f, ids),
        AnimatedPropertyTarget::Separate(fs) => forall|k: int|
            0 <= k < fs@.len() ==> field_resolves(#[trigger] fs@[k], ids),
    }
}

/// The columns that an export fills, while it fills them.
struct Streams {
    start_times: Vec<u8>,
    durations: Vec<u8>,
    types: Vec<u8>,
    targets: Vec<u8>,
    schemas: Vec<u8>,
    num_props: Vec<u8>,
    target_groups: Vec<u8>,
    target_props: Vec<u8>,
    num_fields: Vec<u8>,
    local_offsets: Vec<u8>,
    num_segments: Vec<u8>,
    segment_durations: Vec<u8>,
    interpolations: Vec<u8>,
    val0: Vec<u8>,
    val1: Vec<u8>,
    val2: Vec<u8>,
    val3: Vec<u8>,
}

impl View for Streams {
    type V = ExportBytes;

    closed spec fn view(&self) -> ExportBytes {
        ExportBytes {
            start_times: self.start_times@,
            durations: self.durations@,
            types: self.types@,
            targets: self.targets@,
            schemas: self.schemas@,
            num_props: self.num_props@,
            target_groups: self.target_groups@,
            target_props: self.target_props@,
            num_fields: self.num_fields@,
            local_offsets: self.local_offsets@,
            num_segments: self.num_segments@,
            segment_durations: self.segment_durations@,
            interpolations: self.interpolations@,
            val0: self.val0@,
            val1: self.val1@,
            val2: self.val2@,
            val3: self.val3@,
        }
    }
}

impl Streams {
    fn new() -> (s: Self)
        ensures
            s@ == no_bytes(),
    {
        let s = Streams {
            start_times: Vec::new(),
            durations: Vec::new(),
            types: Vec::new(),
            targets: Vec::new(),
            schemas: Vec::new(),
            num_props: Vec::new(),
            target_groups: Vec::new(),
            target_props: Vec::new(),
            num_fields: Vec::new(),
            local_offsets: Vec::new(),
            num_segments: Vec::new(),
            segment_durations: Vec::new(),
            interpolations: Vec::new(),
            val0: Vec::new(),
            val1: Vec::new(),
            val2: Vec::new(),
            val3: Vec::new(),
        };
        assert(s@ =~= no_bytes());
        s
    }
}

pub proof fn lemma_last_index_bounds(ids: Seq<u32>, id: u32)
    ensures
        -1 <= last_index(ids, id) < ids.len(),
        ids.contains(id) ==> 0 <= last_index(ids, id) && ids[last_index(ids, id)] == id,
    decreases ids.len(),
{
    if ids.len() > 0 && ids.last() != id {
        lemma_last_index_bounds(ids.drop_last(), id);
        if ids.contains(id) {
            let j = choose|j: int| 0 <= j < ids.len() && ids[j] == id;
            assert(j != ids.len() - 1);
            assert(ids.drop_last()[j] == id);
        }
    }
}

/// Position of the last clip with id `id` among `ids`.
fn find_clip(ids: &Vec<u32>, id: u32) -> (j: usize)
    requires
        ids@.contains(id),
    ensures
        j == last_index(ids@, id),
{
    let mut i = ids.len();
    proof {
        assert(ids@.take(i as int) =~= ids@);
    }
    while i > 0
        invariant
            i <= ids@.len(),
            last_index(ids@.take(i as int), id) == last_index(ids@, id),
            ids@.take(i as int).contains(id),
        decreases i,
    {
        proof {
            assert(ids@.take(i as int).last() == ids@[i - 1]);
            assert(ids@.take(i as int).drop_last() =~= ids@.take(i - 1));
        }
        if ids[i - 1] == id {
            return i - 1;
        }
        proof {
            let j = choose|j: int| 0 <= j < i && ids@.take(i as int)[j] == id;
            assert(j != i - 1);
            assert(ids@.take(i - 1)[j] == id);
        }
        i = i - 1;
    }
    proof {
        assert(ids@.take(0).len() == 0);
    }
    0
}

/// Adds a property value to the value columns: a clip reference as the position of the
/// referenced clip (255 for none), any other value one float component per column.
fn export_property_value(value: PropertyValue, ids: &Vec<u32>, s: &mut Streams)
    requires
        value_resolves(value, ids@),
    ensures
        final(s)@ == cat(old(s)@, value_export(value, ids@)),
{
    match value {
        PropertyValue::ClipReference(r) => match r {
            Some(id) => {
                let j = find_clip(ids, id);
                crate::binary_writer::write(&mut s.val0, (j % 256) as u8);
            },
            None => {
                crate::binary_writer::write(&mut s.val0, 255u8);
            },
        },
        PropertyValue::Float(a) => {
            crate::binary_writer::write(&mut s.val0, a);
        },
        PropertyValue::Vec2(a, b) => {
            crate::binary_writer::write(&mut s.val0, a);
            crate::binary_writer::write(&mut s.val1, b);
        },
        PropertyValue::Vec3(a, b, c) => {
            crate::binary_writer::write(&mut s.val0, a);
            crate::binary_writer::write(&mut s.val1, b);
            crate::binary_writer::write(&mut s.val2, c);
        },
        PropertyValue::RgbColor(a, b, c) => {
            crate::binary_writer::write(&mut s.val0, a);
            crate::binary_writer::write(&mut s.val1, b);
            crate::binary_writer::write(&mut s.val2, c);
        },
        PropertyValue::Vec4(a, b, c, d) => {
            crate::binary_writer::write(&mut s.val0, a);
            crate::binary_writer::write(&mut s.val1, b);
            crate::binary_writer::write(&mut s.val2, c);
            crate::binary_writer::write(&mut s.val3, d);
        },
        PropertyValue::RgbaColor(a, b, c, d) => {
            crate::binary_writer::write(&mut s.val0, a);
            crate::binary_writer::write(&mut s.val1, b);
            crate::binary_writer::write(&mut s.val2, c);
            crate::binary_writer::write(&mut s.val3, d);
        },
        PropertyValue::Rotation(a, b, c, d) => {
            crate::binary_writer::write(&mut s.val0, a);
            crate::binary_writer::write(&mut s.val1, b);
            crate::binary_writer::write(&mut s.val2, c);
            crate::binary_writer::write(&mut s.val3, d);
        },
    }
    assert(s@ =~= cat(old(s)@, value_export(value, ids@))) by {
            reveal(cat);
        };
}

/// Adds an animation curve: its start offset, start value and segment count, then each
/// segment's duration, end value and easing.
fn export_animated_field(field: &AnimatedPropertyField, ids: &Vec<u32>, s: &mut Streams)
    requires
        field_resolves(*field, ids@),
    ensures
        final(s)@ == cat(old(s)@, field_export(*field, ids@)),
{
    let ghost segs = field.segments@;
    let ghost start = s@;
    crate::binary_writer::write(&mut s.local_offsets, field.local_offset_frames);
    export_property_value(field.start_value, ids, s);
    crate::binary_writer::write(&mut s.num_segments, (field.segments.len() % 256) as u8);
    let ghost head = ExportBytes {
        local_offsets: le_bytes_u32(field.local_offset_frames as u32),
        num_segments: seq![low_byte(segs.len() as int)],
        ..value_export(field.start_value, ids@)
    };
    proof {
        assert(s@ =~= cat(start, head)) by {
            reveal(cat);
        };
        assert(segs.take(0) =~= Seq::<CurveSegment>::empty());
        lemma_cat_empty(cat(start, head));
    }
    let mut k: usize = 0;
    while k < field.segments.len()
        invariant
            k <= segs.len(),
            segs == field.segments@,
            field_resolves(*field, ids@),
            s@ == cat(cat(start, head), segments_export(segs.take(k as int), ids@)),
        decreases segs.len() - k,
    {
        let seg = field.segments[k];
        let ghost before = s@;
        crate::binary_writer::write(&mut s.segment_durations, seg.duration_frames);
        assert(value_resolves(segs[k as int].end_value, ids@));
        export_property_value(seg.end_value, ids, s);
        match seg.interpolation {
            CurveInterpolation::Linear => {
                crate::binary_writer::write(&mut s.interpolations, 0u8);
            },
            CurveInterpolation::CubicBezier(bezier) => {
                crate::binary_writer::write(&mut s.interpolations, 1u8);
                crate::binary_writer::write(&mut s.interpolations, bezier.c1);
                crate::binary_writer::write(&mut s.interpolations, bezier.c2);
            },
        }
        proof {
            assert(s@ =~= cat(before, segment_export(seg, ids@))) by {
            reveal(cat);
        };
            assert(segs.take(k + 1).drop_last() =~= segs.take(k as int));
            assert(segs.take(k + 1).last() == seg);
            lemma_cat_assoc(
                cat(start, head),
                segments_export(segs.take(k as int), ids@),
                segment_export(seg, ids@),
            );
        }
        k = k + 1;
    }
    proof {
        assert(segs.take(k as int) =~= segs);
        lemma_cat_assoc(start, head, segments_export(segs, ids@));
    }
}

/// Adds an animated property: its target group and property, its field count (0 when the
/// property is animated as a whole), then its curves.
fn export_property(p: &AnimatedProperty, ids: &Vec<u32>, s: &mut Streams)
    requires
        property_resolves(*p, ids@),
    ensures
        final(s)@ == cat(old(s)@, property_export(*p, ids@)),
{
    let ghost start = s@;
    crate::binary_writer::write(&mut s.target_groups, (p.group_index % 256) as u8);
    crate::binary_writer::write(&mut s.target_props, (p.property_index % 256) as u8);
    match &p.target {
        AnimatedPropertyTarget::Joined(field) => {
            crate::binary_writer::write(&mut s.num_fields, 0u8);
            let ghost head = s@;
            export_animated_field(field, ids, s);
            proof {
                let h = ExportBytes {
                    target_groups: seq![low_byte(p.group_index as int)],
                    target_props: seq![low_byte(p.property_index as int)],
                    num_fields: seq![low_byte(0)],
                    ..no_bytes()
                };
                assert(head =~= cat(start, h)) by {
            reveal(cat);
        };
                lemma_cat_assoc(start, h, field_export(*field, ids@));
            }
        },
        AnimatedPropertyTarget::Separate(fields) => {
            crate::binary_writer::write(&mut s.num_fields, (fields.len() % 256) as u8);
            let ghost fs = fields@;
            let ghost h = ExportBytes {
                target_groups: seq![low_byte(p.group_index as int)],
                target_props: seq![low_byte(p.property_index as int)],
                num_fields: seq![low_byte(fs.len() as int)],
                ..no_bytes()
            };
            proof {
                assert(s@ =~= cat(start, h)) by {
            reveal(cat);
        };
                assert(fs.take(0) =~= Seq::<AnimatedPropertyField>::empty());
                lemma_cat_empty(cat(start, h));
            }
            let mut k: usize = 0;
            while k < fields.len()
                invariant
                    k <= fs.len(),
                    fs == fields@,
                    forall|j: int| 0 <= j < fs.len() ==> field_resolves(#[trigger] fs[j], ids@),
                    s@ == cat(cat(start, h), fields_export(fs.take(k as int), ids@)),
                decreases fs.len() - k,
            {
                let ghost before = s@;
                assert(field_resolves(fs[k as int], ids@));
                export_animated_field(&fields[k], ids, s);
                proof {
                    assert(fs.take(k + 1).drop_last() =~= fs.take(k as int));
                    assert(fs.take(k + 1).last() == fs[k as int]);
                    lemma_cat_assoc(
                        cat(start, h),
                        fields_export(fs.take(k as int), ids@),
                        field_export(fs[k as int], ids@),
                    );
                }
                k = k + 1;
            }
            proof {
                assert(fs.take(k as int) =~= fs);
                lemma_cat_assoc(start, h, fields_export(fs, ids@));
            }
        },
    }
}

/// The property indices of `p` name a default of `target`.
pub open spec fn indexes_target(target: Clip, p: AnimatedProperty) -> bool {
    &&& p.group_index < target.property_groups@.len()
    &&& p.property_index < target.property_groups@[p.group_index as int].defaults@.len()
}

/// An export can write the clip: the clip references among the values it writes resolve, an
/// animation's target exists, and its properties name defaults of the target.
pub open spec fn clip_exportable(t: Timeline, c: Clip) -> bool {
    let ids = clip_ids(t);
    match c.source {
        ClipSource::Generator => forall|g: int, d: int|
            0 <= g < c.property_groups@.len() && 0 <= d < c.property_groups@[g].defaults@.len()
                ==> value_resolves(#[trigger] c.property_groups@[g].defaults@[d].value, ids),
        ClipSource::Animation(a) => {
            &&& ids.contains(a.target_clip)
            &&& forall|k: int|
                0 <= k < a.properties@.len() ==> indexes_target(target_of(t, a.target_clip), #[trigger] a.properties@[k])
                    && (kept(target_of(t, a.target_clip), a.properties@[k]) ==> property_resolves(a.properties@[k], ids))
        },
    }
}

/// A timeline that can be exported: its frame numbers fit in `u32` and every clip can be
/// written.
pub open spec fn exportable(t: Timeline) -> bool {
    &&& timeline_fits(t)
    &&& forall|k: int, i: int|
        0 <= k < t.tracks@.len() && 0 <= i < t.tracks@[k].clips@.len() ==> clip_exportable(t, #[trigger] t.tracks@[k].clips@[i])
}

/// Every entry of the flattened clip list of the first `n` tracks names a clip of a track and
/// its start frame, and the list holds them all.
pub proof fn lemma_refs_valid(t: Timeline, n: int)
    requires
        0 <= n <= t.tracks@.len(),
    ensures
        forall|j: int| 0 <= j < refs_upto(t, n).len() ==> {
            let r = #[trigger] refs_upto(t, n)[j];
            &&& 0 <= r.0 < n
            &&& 0 <= r.1 < t.tracks@[r.0].clips@.len()
            &&& r.2 == start_of(t.tracks@[r.0].clips@, r.1)
        },
    decreases n,
{
    if n > 0 {
        lemma_refs_valid(t, n - 1);
        let prev = refs_upto(t, n - 1);
        let clips = t.tracks@[n - 1].clips@;
        assert forall|j: int| 0 <= j < refs_upto(t, n).len() implies {
            let r = #[trigger] refs_upto(t, n)[j];
            &&& 0 <= r.0 < n
            &&& 0 <= r.1 < t.tracks@[r.0].clips@.len()
            &&& r.2 == start_of(t.tracks@[r.0].clips@, r.1)
        } by {
            if j < prev.len() {
                assert(refs_upto(t, n)[j] == prev[j]);
            } else {
                assert(refs_upto(t, n)[j] == (n - 1, j - prev.len(), start_of(clips, j - prev.len())));
            }
        }
    }
}

/// The flattened clip list as plain integers.
pub open spec fn refs_view(v: Seq<(usize, usize, u32)>) -> Seq<ClipRef> {
    v.map_values(|r: (usize, usize, u32)| (r.0 as int, r.1 as int, r.2 as int))
}

/// Every entry of the flattened clip list names a clip of a track and its start frame.
pub open spec fn refs_valid(t: Timeline) -> bool {
    forall|jj: int| 0 <= jj < clip_refs(t).len() ==> {
        let r = #[trigger] clip_refs(t)[jj];
        &&& 0 <= r.0 < t.tracks@.len()
        &&& 0 <= r.1 < t.tracks@[r.0].clips@.len()
        &&& r.2 == start_of(t.tracks@[r.0].clips@, r.1)
    }
}

/// The clips in track order with their start frames, and their ids.
fn flatten_clips(timeline: &Timeline) -> (r: (Vec<(usize, usize, u32)>, Vec<u32>))
    requires
        timeline_fits(*timeline),
    ensures
        refs_view(r.0@) == clip_refs(*timeline),
        r.1@ == clip_ids(*timeline),
        refs_valid(*timeline),
{
    let ghost t = *timeline;
    let mut refs: Vec<(usize, usize, u32)> = Vec::new();
    let mut ids: Vec<u32> = Vec::new();
    let mut k: usize = 0;
    while k < timeline.tracks.len()
        invariant
            k <= t.tracks@.len(),
            *timeline == t,
            timeline_fits(t),
            refs_view(refs@) == refs_upto(t, k as int),
            ids@.len() == refs@.len(),
            forall|j: int| 0 <= j < ids@.len() ==> #[trigger] ids@[j] == clip_at(t, refs_view(refs@)[j]).id,
        decreases t.tracks@.len() - k,
    {
        let ghost clips = t.tracks@[k as int].clips@;
        let ghost base = refs_upto(t, k as int);
        proof {
            assert(track_fits(clips));
            assert(refs_view(refs@) =~= base + Seq::new(0, |ii: int| (k as int, ii, start_of(clips, ii))));
        }
        let mut last_end: u32 = 0;
        let mut i: usize = 0;
        while i < timeline.tracks[k].clips.len()
            invariant
                k < t.tracks@.len(),
                i <= clips.len(),
                *timeline == t,
                clips == t.tracks@[k as int].clips@,
                track_fits(clips),
                last_end == end_at(clips, i as int),
                base == refs_upto(t, k as int),
                refs_view(refs@) == base + Seq::new(i as nat, |ii: int| (k as int, ii, start_of(clips, ii))),
                ids@.len() == refs@.len(),
                forall|j: int| 0 <= j < ids@.len() ==> #[trigger] ids@[j] == clip_at(t, refs_view(refs@)[j]).id,
            decreases clips.len() - i,
        {
            proof {
                crate::timeline::lemma_clip_in_track(clips, i as int);
            }
            let clip = &timeline.tracks[k].clips[i];
            let start = last_end + clip.offset_frames;
            last_end = start + clip.duration_frames;
            let ghost before = refs@;
            refs.push((k, i, start));
            ids.push(clip.id);
            proof {
                assert(refs_view(refs@) =~= refs_view(before).push((k as int, i as int, start as int)));
                assert(refs_view(refs@) =~= base + Seq::new((i + 1) as nat, |ii: int| (k as int, ii, start_of(clips, ii))));
                assert forall|j: int| 0 <= j < ids@.len() implies #[trigger] ids@[j] == clip_at(t, refs_view(refs@)[j]).id by {
                    if j < before.len() {
                        assert(refs_view(refs@)[j] == refs_view(before)[j]);
                    }
                }
            }
            i = i + 1;
        }
        proof {
            assert(refs_view(refs@) =~= refs_upto(t, k + 1));
        }
        k = k + 1;
    }
    proof {
        lemma_refs_valid(t, t.tracks@.len() as int);
        assert(refs_view(refs@) == clip_refs(t));
        assert(ids@ =~= clip_ids(t));
    }
    (refs, ids)
}

/// The end frame of the last-ending clip, or 0 when there are no clips.
fn project_duration(timeline: &Timeline, refs: &Vec<(usize, usize, u32)>) -> (d: u32)
    requires
        timeline_fits(*timeline),
        refs_view(refs@) == clip_refs(*timeline),
        refs_valid(*timeline),
    ensures
        d == duration_upto(*timeline, refs@.len() as int),
{
    let ghost t = *timeline;
    let mut project_duration: u32 = 0;
    let mut j: usize = 0;
    while j < refs.len()
        invariant
            j <= refs@.len(),
            *timeline == t,
            timeline_fits(t),
            refs_view(refs@) == clip_refs(t),
            refs_valid(t),
            project_duration == duration_upto(t, j as int),
        decreases refs@.len() - j,
    {
        let (tr, ci, start) = refs[j];
        proof {
            assert(refs_view(refs@)[j as int] == (tr as int, ci as int, start as int));
            let r = clip_refs(t)[j as int];
            assert(track_fits(t.tracks@[r.0].clips@));
            crate::timeline::lemma_clip_in_track(t.tracks@[r.0].clips@, r.1);
        }
        let end = start + timeline.tracks[tr].clips[ci].duration_frames;
        if end > project_duration {
            project_duration = end;
        }
        j = j + 1;
    }
    project_duration
}

/// Fills the columns clip by clip.
fn fill_streams(timeline: &Timeline, refs: &Vec<(usize, usize, u32)>, ids: &Vec<u32>) -> (s: Streams)
    requires
        exportable(*timeline),
        refs_view(refs@) == clip_refs(*timeline),
        ids@ == clip_ids(*timeline),
        refs_valid(*timeline),
    ensures
        s@ == clips_export(*timeline, refs@.len() as int),
{
    let ghost t = *timeline;
    let mut s = Streams::new();
    let mut j: usize = 0;
    while j < refs.len()
        invariant
            j <= refs@.len(),
            *timeline == t,
            exportable(t),
            refs_view(refs@) == clip_refs(t),
            ids@ == clip_ids(t),
            refs_valid(t),
            s@ == clips_export(t, j as int),
        decreases refs@.len() - j,
    {
        let (tr, ci, start) = refs[j];
        proof {
            assert(refs_view(refs@)[j as int] == (tr as int, ci as int, start as int));
            assert(clip_refs(t)[j as int] == (tr as int, ci as int, start as int));
        }
        export_clip(timeline, refs, ids, tr, ci, start, &mut s);
        j = j + 1;
    }
    s
}

/// Appends the player's blob of a timeline to `buffer` (see `timeline_bytes`).
pub fn export_timeline(timeline: &Timeline, buffer: &mut Vec<u8>)
    requires
        exportable(*timeline),
    ensures
        final(buffer)@ == old(buffer)@ + timeline_bytes(*timeline),
{
    let (refs, ids) = flatten_clips(timeline);
    let duration = project_duration(timeline, &refs);
    let s = fill_streams(timeline, &refs, &ids);
    write_timeline_blob(buffer, duration, s);
}

/// Adds one clip of the flattened list (track `tr`, index `ci`, starting at `start`).
fn export_clip(
    timeline: &Timeline,
    refs: &Vec<(usize, usize, u32)>,
    ids: &Vec<u32>,
    tr: usize,
    ci: usize,
    start: u32,
    s: &mut Streams,
)
    requires
        exportable(*timeline),
        refs_view(refs@) == clip_refs(*timeline),
        ids@ == clip_ids(*timeline),
        refs_valid(*timeline),
        tr < timeline.tracks@.len(),
        ci < timeline.tracks@[tr as int].clips@.len(),
    ensures
        final(s)@ == cat(old(s)@, clip_export(*timeline, (tr as int, ci as int, start as int))),
{
    let ghost t = *timeline;
    let ghost r = (tr as int, ci as int, start as int);
    let ghost ids_v = clip_ids(t);
    let clip = &timeline.tracks[tr].clips[ci];
    let ghost base = s@;
    assert(clip_exportable(t, t.tracks@[tr as int].clips@[ci as int]));
    crate::binary_writer::write(&mut s.start_times, start);
    crate::binary_writer::write(&mut s.durations, clip.duration_frames);
    match &clip.source {
        ClipSource::Generator => {
            crate::binary_writer::write(&mut s.types, (clip.schema % 256) as u8);
            let ghost head = s@;
            let ghost gs = clip.property_groups@;
            proof {
                assert(head =~= cat(base, ExportBytes {
                    start_times: le_bytes_u32(start),
                    durations: le_bytes_u32(clip.duration_frames),
                    types: seq![low_byte(clip.schema as int)],
                    ..no_bytes()
                })) by {
            reveal(cat);
        };
                assert(gs.take(0) =~= Seq::<PropertyGroup>::empty());
                lemma_cat_empty(head);
            }
            let mut g: usize = 0;
            while g < clip.property_groups.len()
                invariant
                    g <= gs.len(),
                    gs == clip.property_groups@,
                    ids@ == ids_v,
                    forall|gg: int, d: int|
                        0 <= gg < gs.len() && 0 <= d < gs[gg].defaults@.len() ==> value_resolves(
                            #[trigger] gs[gg].defaults@[d].value,
                            ids_v,
                        ),
                    s@ == cat(head, defaults_export(gs.take(g as int), ids_v)),
                decreases gs.len() - g,
            {
                let group = &clip.property_groups[g];
                let ghost ds = group.defaults@;
                let ghost mid = s@;
                proof {
                    assert(ds.take(0) =~= Seq::<crate::timeline::PropertyDefault>::empty());
                    lemma_cat_empty(mid);
                }
                let mut d: usize = 0;
                while d < group.defaults.len()
                    invariant
                        d <= ds.len(),
                        ds == group.defaults@,
                        ds == gs[g as int].defaults@,
                        g < gs.len(),
                        ids@ == ids_v,
                        forall|gg: int, dd: int|
                            0 <= gg < gs.len() && 0 <= dd < gs[gg].defaults@.len() ==> value_resolves(
                                #[trigger] gs[gg].defaults@[dd].value,
                                ids_v,
                            ),
                        s@ == cat(mid, group_export(ds.take(d as int), ids_v)),
                    decreases ds.len() - d,
                {
                    assert(value_resolves(gs[g as int].defaults@[d as int].value, ids_v));
                    export_property_value(group.defaults[d].value, ids, s);
                    proof {
                        assert(ds.take(d + 1).drop_last() =~= ds.take(d as int));
                        assert(ds.take(d + 1).last() == ds[d as int]);
                        lemma_cat_assoc(
                            mid,
                            group_export(ds.take(d as int), ids_v),
                            value_export(ds[d as int].value, ids_v),
                        );
                    }
                    d = d + 1;
                }
                proof {
                    assert(ds.take(d as int) =~= ds);
                    assert(gs.take(g + 1).drop_last() =~= gs.take(g as int));
                    assert(gs.take(g + 1).last() == gs[g as int]);
                    lemma_cat_assoc(head, defaults_export(gs.take(g as int), ids_v), group_export(ds, ids_v));
                }
                g = g + 1;
            }
            proof {
                assert(gs.take(g as int) =~= gs);
                lemma_cat_assoc(
                    base,
                    ExportBytes {
                        start_times: le_bytes_u32(start),
                        durations: le_bytes_u32(clip.duration_frames),
                        types: seq![low_byte(clip.schema as int)],
                        ..no_bytes()
                    },
                    defaults_export(gs, ids_v),
                );
            }
        },
        ClipSource::Animation(a) => {
            crate::binary_writer::write(&mut s.types, 255u8);
            let ghost h1 = ExportBytes {
                start_times: le_bytes_u32(start),
                durations: le_bytes_u32(clip.duration_frames),
                types: seq![255u8],
                ..no_bytes()
            };
            proof {
                assert(s@ =~= cat(base, h1)) by {
            reveal(cat);
        };
                lemma_last_index_bounds(ids_v, a.target_clip);
            }
            let ti = find_clip(ids, a.target_clip);
            let (ttr, tci, _tstart) = refs[ti];
            proof {
                assert(refs_view(refs@)[ti as int] == clip_refs(t)[ti as int]);
            }
            let target = &timeline.tracks[ttr].clips[tci];
            let ghost tg = *target;
            let ghost ps = a.properties@;
            proof {
                assert(tg == target_of(t, a.target_clip));
            }
            // Count the properties that are kept.
            let mut count: usize = 0;
            let mut k: usize = 0;
            proof {
                assert(ps.take(0) =~= Seq::<AnimatedProperty>::empty());
            }
            while k < a.properties.len()
                invariant
                    k <= ps.len(),
                    ps == a.properties@,
                    tg == *target,
                    forall|kk: int| 0 <= kk < ps.len() ==> indexes_target(tg, #[trigger] ps[kk]),
                    count == active_properties(ps.take(k as int), tg).len(),
                    count <= k,
                decreases ps.len() - k,
            {
                let p = &a.properties[k];
                assert(indexes_target(tg, ps[k as int]));
                proof {
                    assert(ps.take(k + 1).drop_last() =~= ps.take(k as int));
                    assert(ps.take(k + 1).last() == ps[k as int]);
                }
                if !target.property_groups[p.group_index].defaults[p.property_index].is_override {
                    count = count + 1;
                }
                k = k + 1;
            }
            proof {
                assert(ps.take(k as int) =~= ps);
            }
            let ghost active = active_properties(ps, tg);
            crate::binary_writer::write(&mut s.targets, (ti % 256) as u8);
            crate::binary_writer::write(&mut s.schemas, (clip.schema % 256) as u8);
            crate::binary_writer::write(&mut s.num_props, (count % 256) as u8);
            let ghost h2 = ExportBytes {
                targets: seq![low_byte(last_index(ids_v, a.target_clip))],
                schemas: seq![low_byte(clip.schema as int)],
                num_props: seq![low_byte(active.len() as int)],
                ..no_bytes()
            };
            let ghost head = s@;
            proof {
                assert(head =~= cat(cat(base, h1), h2)) by {
            reveal(cat);
        };
                lemma_cat_empty(head);
            }
            let mut k: usize = 0;
            while k < a.properties.len()
                invariant
                    k <= ps.len(),
                    ps == a.properties@,
                    tg == *target,
                    ids@ == ids_v,
                    forall|kk: int|
                        0 <= kk < ps.len() ==> indexes_target(tg, #[trigger] ps[kk]) && (kept(
                            tg,
                            ps[kk],
                        ) ==> property_resolves(ps[kk], ids_v)),
                    s@ == cat(head, properties_export(active_properties(ps.take(k as int), tg), ids_v)),
                decreases ps.len() - k,
            {
                let p = &a.properties[k];
                assert(indexes_target(tg, ps[k as int]));
                let ghost prev = active_properties(ps.take(k as int), tg);
                proof {
                    assert(ps.take(k + 1).drop_last() =~= ps.take(k as int));
                    assert(ps.take(k + 1).last() == ps[k as int]);
                }
                if !target.property_groups[p.group_index].defaults[p.property_index].is_override {
                    export_property(p, ids, s);
                    proof {
                        assert(prev.push(ps[k as int]).drop_last() =~= prev);
                        lemma_cat_assoc(head, properties_export(prev, ids_v), property_export(ps[k as int], ids_v));
                    }
                }
                k = k + 1;
            }
            proof {
                assert(ps.take(k as int) =~= ps);
                lemma_cat_assoc(cat(base, h1), h2, properties_export(active, ids_v));
                lemma_cat_assoc(base, h1, h2);
                lemma_cat_assoc(base, cat(h1, h2), properties_export(active, ids_v));
            }
        },
    }
}

/// Appends a column to the blob.
fn append_column(buffer: &mut Vec<u8>, col: &mut Vec<u8>)
    ensures
        final(buffer)@ == old(buffer)@ + old(col)@,
{
    buffer.append(col);
}

/// The low 32 bits of a byte count, as written in front of a column.
fn size_of_columns(a: &Vec<u8>, b: &Vec<u8>, c: &Vec<u8>) -> (w: u32)
    ensures
        le_bytes_u32(w) == size_word(a@.len() + b@.len() + c@.len()),
{
    ((a.len() as u128 + b.len() as u128 + c.len() as u128) % 0x1_0000_0000) as u32
}

/// Appends a record count's low byte, then up to three columns behind their byte count.
fn write_section(buffer: &mut Vec<u8>, count: u8, a: &mut Vec<u8>, b: &mut Vec<u8>, c: &mut Vec<u8>)
    ensures
        final(buffer)@ == old(buffer)@ + section(count, old(a)@, old(b)@, old(c)@),
{
    crate::binary_writer::write(buffer, count);
    let w = size_of_columns(a, b, c);
    crate::binary_writer::write(buffer, w);
    append_column(buffer, a);
    append_column(buffer, b);
    append_column(buffer, c);
    assert(buffer@ =~= old(buffer)@ + section(count, old(a)@, old(b)@, old(c)@));
}

/// Appends a column behind its byte count.
fn write_column(buffer: &mut Vec<u8>, a: &mut Vec<u8>)
    ensures
        final(buffer)@ == old(buffer)@ + column(old(a)@),
{
    let empty: Vec<u8> = Vec::new();
    let w = size_of_columns(a, &empty, &empty);
    crate::binary_writer::write(buffer, w);
    append_column(buffer, a);
    assert(buffer@ =~= old(buffer)@ + column(old(a)@));
}

/// Appends the project duration, then the columns with their counts and byte counts.
fn write_timeline_blob(buffer: &mut Vec<u8>, duration: u32, s: Streams)
    ensures
        final(buffer)@ == old(buffer)@ + blob_bytes(duration, s@),
{
    let ghost e = s@;
    let ghost b0 = buffer@;
    let mut s = s;
    let mut none1: Vec<u8> = Vec::new();
    let mut none2: Vec<u8> = Vec::new();
    crate::binary_writer::write(buffer, duration);
    let ghost b1 = buffer@;
    let n = (s.types.len() % 256) as u8;
    write_section(buffer, n, &mut s.start_times, &mut s.durations, &mut s.types);
    let ghost b2 = buffer@;
    let n = (s.targets.len() % 256) as u8;
    write_section(buffer, n, &mut s.targets, &mut s.schemas, &mut s.num_props);
    let ghost b3 = buffer@;
    let n = (s.target_groups.len() % 256) as u8;
    write_section(buffer, n, &mut s.target_groups, &mut s.target_props, &mut s.num_fields);
    let ghost b4 = buffer@;
    let n = (s.num_segments.len() % 256) as u8;
    write_section(buffer, n, &mut s.local_offsets, &mut s.num_segments, &mut none1);
    let ghost b5 = buffer@;
    let n = ((s.segment_durations.len() / 4) % 256) as u8;
    write_section(buffer, n, &mut s.segment_durations, &mut s.interpolations, &mut none2);
    let ghost b6 = buffer@;
    write_column(buffer, &mut s.val0);
    write_column(buffer, &mut s.val1);
    write_column(buffer, &mut s.val2);
    write_column(buffer, &mut s.val3);
}

/// The flattened clip list of the first `n` tracks holds every clip of those tracks.
proof fn lemma_refs_complete(t: Timeline, n: int, k: int, i: int)
    requires
        0 <= k < n <= t.tracks@.len(),
        0 <= i < t.tracks@[k].clips@.len(),
    ensures
        exists|j: int|
            0 <= j < refs_upto(t, n).len() && #[trigger] refs_upto(t, n)[j] == (k, i, start_of(
                t.tracks@[k].clips@,
                i,
            )),
    decreases n,
{
    let prev = refs_upto(t, n - 1);
    if k < n - 1 {
        lemma_refs_complete(t, n - 1, k, i);
        let j = choose|j: int|
            0 <= j < prev.len() && #[trigger] prev[j] == (k, i, start_of(t.tracks@[k].clips@, i));
        assert(refs_upto(t, n)[j] == prev[j]);
    } else {
        let j = prev.len() + i;
        assert(refs_upto(t, n)[j] == (k, i, start_of(t.tracks@[k].clips@, i)));
    }
}

/// What the duration of the first `n` entries of the flattened list is: no entry ends after
/// it, and it is 0 or the end of one of them.
proof fn lemma_duration_upto(t: Timeline, n: int)
    requires
        0 <= n <= clip_refs(t).len(),
    ensures
        duration_upto(t, n) >= 0,
        forall|j: int|
            0 <= j < n ==> (#[trigger] clip_refs(t)[j]).2 + clip_at(t, clip_refs(t)[j]).duration_frames
                <= duration_upto(t, n),
        duration_upto(t, n) == 0 || exists|j: int|
            0 <= j < n && (#[trigger] clip_refs(t)[j]).2 + clip_at(t, clip_refs(t)[j]).duration_frames
                == duration_upto(t, n),
    decreases n,
{
    if n > 0 {
        lemma_duration_upto(t, n - 1);
        lemma_refs_valid(t, t.tracks@.len() as int);
        let r = clip_refs(t)[n - 1];
        assert(r.2 == start_of(t.tracks@[r.0].clips@, r.1));
        lemma_start_nonneg(t.tracks@[r.0].clips@, r.1);
        if duration_upto(t, n - 1) != 0 && duration_upto(t, n) == duration_upto(t, n - 1) {
            let j = choose|j: int|
                0 <= j < n - 1 && (#[trigger] clip_refs(t)[j]).2 + clip_at(t, clip_refs(t)[j]).duration_frames
                    == duration_upto(t, n - 1);
            assert(0 <= j < n && clip_refs(t)[j].2 + clip_at(t, clip_refs(t)[j]).duration_frames == duration_upto(t, n));
        }
    }
}

/// A blob starts with the bytes of its duration.
proof fn lemma_blob_starts_with_duration(d: u32, e: ExportBytes)
    ensures
        blob_bytes(d, e).take(4) == le_bytes_u32(d),
{
    let head = le_bytes_u32(d);
    assert(head.len() == 4);
    let b = blob_bytes(d, e);
    assert(b.take(4) =~= head);
}

/// The start frame of a clip is not negative.
proof fn lemma_start_nonneg(clips: Seq<Clip>, i: int)
    requires
        0 <= i < clips.len(),
    ensures
        start_of(clips, i) >= 0,
{
    lemma_clip_in_track(clips, i);
}

/// The project duration that an export writes first (see `timeline_bytes`) is where the last
/// clip ends: no clip of any track ends after it, and it is the end frame of some clip, or 0
/// when the timeline has no clip.
pub proof fn law_duration_is_last_end(t: Timeline)
    ensures
        ({
            let d = duration_upto(t, clip_refs(t).len() as int);
            &&& timeline_bytes(t).take(4) == le_bytes_u32(d as u32)
            &&& forall|k: int, i: int|
                0 <= k < t.tracks@.len() && 0 <= i < t.tracks@[k].clips@.len() ==> start_of(
                    t.tracks@[k].clips@,
                    i,
                ) + (#[trigger] t.tracks@[k].clips@[i]).duration_frames <= d
            &&& d == 0 || exists|k: int, i: int|
                0 <= k < t.tracks@.len() && 0 <= i < t.tracks@[k].clips@.len() && start_of(
                    t.tracks@[k].clips@,
                    i,
                ) + (#[trigger] t.tracks@[k].clips@[i]).duration_frames == d
        }),
{
    let n = clip_refs(t).len() as int;
    let d = duration_upto(t, n);
    assert(timeline_bytes(t).take(4) == le_bytes_u32(d as u32)) by {
        lemma_blob_starts_with_duration(d as u32, clips_export(t, n));
    }
    lemma_duration_upto(t, n);
    lemma_refs_valid(t, t.tracks@.len() as int);
    assert forall|k: int, i: int|
        0 <= k < t.tracks@.len() && 0 <= i < t.tracks@[k].clips@.len() implies start_of(t.tracks@[k].clips@, i)
            + (#[trigger] t.tracks@[k].clips@[i]).duration_frames <= d by {
        lemma_refs_complete(t, t.tracks@.len() as int, k, i);
        let j = choose|j: int|
            0 <= j < clip_refs(t).len() && #[trigger] clip_refs(t)[j] == (k, i, start_of(t.tracks@[k].clips@, i));
        assert(clip_refs(t)[j].2 + clip_at(t, clip_refs(t)[j]).duration_frames <= d);
    }
    if d != 0 {
        let j = choose|j: int|
            0 <= j < n && (#[trigger] clip_refs(t)[j]).2 + clip_at(t, clip_refs(t)[j]).duration_frames == d;
        let r = clip_refs(t)[j];
        assert(0 <= r.0 < t.tracks@.len() && 0 <= r.1 < t.tracks@[r.0].clips@.len());
        assert(start_of(t.tracks@[r.0].clips@, r.1) + t.tracks@[r.0].clips@[r.1].duration_frames == d);
    }
}

} // verus!
