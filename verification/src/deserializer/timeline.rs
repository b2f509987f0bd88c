//! Reading the player's blob back into a timeline: one track per clip, frame counts doubled
//! (the player counts frames at twice the editor's rate), clip ids numbered in blob order.
use vstd::prelude::*;
use crate::binary_writer::{le_word_u32, vector2_of, Vector2};
use crate::deserializer::stream::Stream;
use crate::exporter::ExportBytes;
use crate::timeline::{
    AnimatedProperty, AnimatedPropertyField, AnimatedPropertyTarget, AnimationClip, Clip,
    ClipSource, CubicBezier, CurveInterpolation, CurveSegment, PropertyDefault, PropertyGroup,
    PropertyType, PropertyValue, Timeline, Track,
};

verus! {

/// The value types of a generator schema's properties, group by group.
pub struct SchemaGroup {
    pub properties: Vec<PropertyType>,
}

/// What the loader needs of a generator schema: the types of its properties.
pub struct GeneratorSchema {
    pub groups: Vec<SchemaGroup>,
}

pub open spec fn schema_types(s: GeneratorSchema) -> Seq<Seq<PropertyType>> {
    s.groups@.map_values(|g: SchemaGroup| g.properties@)
}

pub open spec fn schemas_types(ss: Seq<GeneratorSchema>) -> Seq<Seq<Seq<PropertyType>>> {
    ss.map_values(|s: GeneratorSchema| schema_types(s))
}

/// An animation curve as a mathematical value.
pub struct FieldModel {
    pub local_offset_frames: i32,
    pub start_value: PropertyValue,
    pub segments: Seq<CurveSegment>,
}

pub enum TargetModel {
    Joined(FieldModel),
    Separate(Seq<FieldModel>),
}

pub struct PropertyModel {
    pub group_index: usize,
    pub property_index: usize,
    pub target: TargetModel,
    pub is_collapsed: bool,
}

pub enum SourceModel {
    Generator,
    Animation(u32, Seq<PropertyModel>),
}

/// A clip as a mathematical value.
pub struct ClipModel {
    pub id: u32,
    pub name: Seq<char>,
    pub schema: usize,
    pub source: SourceModel,
    pub offset_frames: u32,
    pub duration_frames: u32,
    pub property_groups: Seq<Seq<PropertyDefault>>,
    pub is_selected: bool,
}

pub open spec fn field_model(f: AnimatedPropertyField) -> FieldModel {
    FieldModel {
        local_offset_frames: f.local_offset_frames,
        start_value: f.start_value,
        segments: f.segments@,
    }
}

pub open spec fn target_model(t: AnimatedPropertyTarget) -> TargetModel {
    match t {
        AnimatedPropertyTarget::Joined(f) => TargetModel::Joined(field_model(f)),
        AnimatedPropertyTarget::Separate(fs) => TargetModel::Separate(
            fs@.map_values(|f: AnimatedPropertyField| field_model(f)),
        ),
    }
}

pub open spec fn property_model(p: AnimatedProperty) -> PropertyModel {
    PropertyModel {
        group_index: p.group_index,
        property_index: p.property_index,
        target: target_model(p.target),
        is_collapsed: p.is_collapsed,
    }
}

pub open spec fn source_model(s: ClipSource) -> SourceModel {
    match s {
        ClipSource::Generator => SourceModel::Generator,
        ClipSource::Animation(a) => SourceModel::Animation(
            a.target_clip,
            a.properties@.map_values(|p: AnimatedProperty| property_model(p)),
        ),
    }
}

pub open spec fn clip_model(c: Clip) -> ClipModel {
    ClipModel {
        id: c.id,
        name: c.name@,
        schema: c.schema,
        source: source_model(c.source),
        offset_frames: c.offset_frames,
        duration_frames: c.duration_frames,
        property_groups: c.property_groups@.map_values(|g: PropertyGroup| g.defaults@),
        is_selected: c.is_selected,
    }
}

/// The first byte of a column and the rest.
pub open spec fn take_byte(col: Seq<u8>) -> Option<(u8, Seq<u8>)> {
    if col.len() >= 1 {
        Some((col[0], col.skip(1)))
    } else {
        None
    }
}

/// The first little-endian 32-bit word of a column and the rest.
pub open spec fn take_word(col: Seq<u8>) -> Option<(u32, Seq<u8>)> {
    if col.len() >= 4 {
        Some((le_word_u32(col.take(4)), col.skip(4)))
    } else {
        None
    }
}

/// Twice a frame count, as the player's release build computes it (wrapping on overflow).
pub open spec fn doubled(x: u32) -> u32 {
    vstd::wrapping::u32_specs::wrapping_mul(x, 2)
}

pub open spec fn doubled_i32(x: i32) -> i32 {
    vstd::wrapping::i32_specs::wrapping_mul(x, 2)
}

/// Number of float components of a value of type `ty`.
pub open spec fn component_count(ty: PropertyType) -> int {
    match ty {
        PropertyType::Float => 1,
        PropertyType::Vec2 => 2,
        PropertyType::Vec3 => 3,
        PropertyType::RgbColor => 3,
        PropertyType::Vec4 => 4,
        PropertyType::RgbaColor => 4,
        PropertyType::Rotation => 4,
        PropertyType::ClipReference => 0,
    }
}

/// The value of type `ty` with float components `a, b, c, d` (those past its count unused).
pub open spec fn value_of(ty: PropertyType, a: u32, b: u32, c: u32, d: u32) -> PropertyValue {
    match ty {
        PropertyType::Float => PropertyValue::Float(a),
        PropertyType::Vec2 => PropertyValue::Vec2(a, b),
        PropertyType::Vec3 => PropertyValue::Vec3(a, b, c),
        PropertyType::RgbColor => PropertyValue::RgbColor(a, b, c),
        PropertyType::Vec4 => PropertyValue::Vec4(a, b, c, d),
        PropertyType::RgbaColor => PropertyValue::RgbaColor(a, b, c, d),
        PropertyType::Rotation => PropertyValue::Rotation(a, b, c, d),
        PropertyType::ClipReference => PropertyValue::ClipReference(None),
    }
}

/// A value column after the component of a value with `n` components was read from column `k`.
pub open spec fn after_component(col: Seq<u8>, k: int, n: int) -> Seq<u8> {
    if k < n {
        col.skip(4)
    } else {
        col
    }
}

/// Reads a value of type `ty`: a clip reference is one byte of the first value column (255 for
/// none, else the referenced clip's number), any other value one 32-bit float component from
/// each of the first columns.
pub open spec fn decode_value(ty: PropertyType, c: ExportBytes) -> Option<(PropertyValue, ExportBytes)> {
    if ty is ClipReference {
        match take_byte(c.val0) {
            Some((b, r)) => Some(
                (
                    PropertyValue::ClipReference(
                        if b == 255 {
                            None
                        } else {
                            Some(b as u32)
                        },
                    ),
                    ExportBytes { val0: r, ..c },
                ),
            ),
            None => None,
        }
    } else {
        let n = component_count(ty);
        if c.val0.len() >= 4 && (n > 1 ==> c.val1.len() >= 4) && (n > 2 ==> c.val2.len() >= 4) && (n
            > 3 ==> c.val3.len() >= 4) {
            Some(
                (
                    value_of(
                        ty,
                        le_word_u32(c.val0.take(4)),
                        le_word_u32(c.val1.take(4)),
                        le_word_u32(c.val2.take(4)),
                        le_word_u32(c.val3.take(4)),
                    ),
                    ExportBytes {
                        val0: c.val0.skip(4),
                        val1: after_component(c.val1, 1, n),
                        val2: after_component(c.val2, 2, n),
                        val3: after_component(c.val3, 3, n),
                        ..c
                    },
                ),
            )
        } else {
            None
        }
    }
}

/// Reads a segment's easing from the easing column: 0 is linear, 1 is followed by two control
/// points; any other tag is not an easing.
pub open spec fn decode_interpolation(col: Seq<u8>) -> Option<(CurveInterpolation, Seq<u8>)> {
    match take_byte(col) {
        Some((tag, rest)) => if tag == 0 {
            Some((CurveInterpolation::Linear, rest))
        } else if tag == 1 && rest.len() >= 16 {
            Some(
                (
                    CurveInterpolation::CubicBezier(
                        CubicBezier {
                            c1: vector2_of(rest.take(8)),
                            c2: vector2_of(rest.subrange(8, 16)),
                        },
                    ),
                    rest.skip(16),
                ),
            )
        } else {
            None
        },
        None => None,
    }
}

/// Reads a curve segment: its duration (doubled), end value and easing.
pub open spec fn decode_segment(ty: PropertyType, c: ExportBytes) -> Option<(CurveSegment, ExportBytes)> {
    match take_word(c.segment_durations) {
        Some((d, sd)) => match decode_value(ty, ExportBytes { segment_durations: sd, ..c }) {
            Some((v, c2)) => match decode_interpolation(c2.interpolations) {
                Some((i, ip)) => Some(
                    (
                        CurveSegment { duration_frames: doubled(d), end_value: v, interpolation: i },
                        ExportBytes { interpolations: ip, ..c2 },
                    ),
                ),
                None => None,
            },
            None => None,
        },
        None => None,
    }
}

/// `x` in front of the sequence that `o` reads, if it reads one.
pub open spec fn prepend<A>(x: Seq<A>, o: Option<(Seq<A>, ExportBytes)>) -> Option<(Seq<A>, ExportBytes)> {
    match o {
        Some((s, c)) => Some((x + s, c)),
        None => None,
    }
}

pub open spec fn decode_segments(ty: PropertyType, n: nat, c: ExportBytes) -> Option<(Seq<CurveSegment>, ExportBytes)>
    decreases n,
{
    if n == 0 {
        Some((Seq::empty(), c))
    } else {
        match decode_segment(ty, c) {
            Some((s, c2)) => prepend(seq![s], decode_segments(ty, (n - 1) as nat, c2)),
            None => None,
        }
    }
}

/// Reads an animation curve: its start offset (doubled), start value, segment count and
/// segments.
pub open spec fn decode_field(ty: PropertyType, c: ExportBytes) -> Option<(FieldModel, ExportBytes)> {
    match take_word(c.local_offsets) {
        Some((off, lo)) => match decode_value(ty, ExportBytes { local_offsets: lo, ..c }) {
            Some((v, c2)) => match take_byte(c2.num_segments) {
                Some((n, ns)) => match decode_segments(ty, n as nat, ExportBytes { num_segments: ns, ..c2 }) {
                    Some((segs, c3)) => Some(
                        (
                            FieldModel {
                                local_offset_frames: doubled_i32(off as i32),
                                start_value: v,
                                segments: segs,
                            },
                            c3,
                        ),
                    ),
                    None => None,
                },
                None => None,
            },
            None => None,
        },
        None => None,
    }
}

pub open spec fn decode_fields(ty: PropertyType, n: nat, c: ExportBytes) -> Option<(Seq<FieldModel>, ExportBytes)>
    decreases n,
{
    if n == 0 {
        Some((Seq::empty(), c))
    } else {
        match decode_field(ty, c) {
            Some((f, c2)) => prepend(seq![f], decode_fields(ty, (n - 1) as nat, c2)),
            None => None,
        }
    }
}

/// Reads an animated property of a clip with schema `schema`: its target group and property,
/// its field count, then one curve of the property's type (count 0) or that many float curves.
pub open spec fn decode_property(schema: Seq<Seq<PropertyType>>, c: ExportBytes) -> Option<(PropertyModel, ExportBytes)> {
    match (take_byte(c.target_groups), take_byte(c.target_props), take_byte(c.num_fields)) {
        (Some((g, tg)), Some((p, tp)), Some((nf, nfs))) => if g < schema.len() && p < schema[g as int].len() {
            let ty = schema[g as int][p as int];
            let c1 = ExportBytes { target_groups: tg, target_props: tp, num_fields: nfs, ..c };
            if nf == 0 {
                match decode_field(ty, c1) {
                    Some((f, c2)) => Some(
                        (
                            PropertyModel {
                                group_index: g as usize,
                                property_index: p as usize,
                                target: TargetModel::Joined(f),
                                is_collapsed: false,
                            },
                            c2,
                        ),
                    ),
                    None => None,
                }
            } else {
                match decode_fields(PropertyType::Float, nf as nat, c1) {
                    Some((fs, c2)) => Some(
                        (
                            PropertyModel {
                                group_index: g as usize,
                                property_index: p as usize,
                                target: TargetModel::Separate(fs),
                                is_collapsed: false,
                            },
                            c2,
                        ),
                    ),
                    None => None,
                }
            }
        } else {
            None
        },
        _ => None,
    }
}

pub open spec fn decode_properties(schema: Seq<Seq<PropertyType>>, n: nat, c: ExportBytes) -> Option<(Seq<PropertyModel>, ExportBytes)>
    decreases n,
{
    if n == 0 {
        Some((Seq::empty(), c))
    } else {
        match decode_property(schema, c) {
            Some((p, c2)) => prepend(seq![p], decode_properties(schema, (n - 1) as nat, c2)),
            None => None,
        }
    }
}

/// Reads the default values of a group whose properties have types `tys`.
pub open spec fn decode_group(tys: Seq<PropertyType>, c: ExportBytes) -> Option<(Seq<PropertyDefault>, ExportBytes)>
    decreases tys.len(),
{
    if tys.len() == 0 {
        Some((Seq::empty(), c))
    } else {
        match decode_value(tys[0], c) {
            Some((v, c2)) => prepend(
                seq![PropertyDefault { value: v, is_override: false }],
                decode_group(tys.drop_first(), c2),
            ),
            None => None,
        }
    }
}

/// Reads the default values of a generator clip, group by group.
pub open spec fn decode_groups(groups: Seq<Seq<PropertyType>>, c: ExportBytes) -> Option<(Seq<Seq<PropertyDefault>>, ExportBytes)>
    decreases groups.len(),
{
    if groups.len() == 0 {
        Some((Seq::empty(), c))
    } else {
        match decode_group(groups[0], c) {
            Some((g, c2)) => prepend(seq![g], decode_groups(groups.drop_first(), c2)),
            None => None,
        }
    }
}

/// Reads clip number `id`: its start and duration (both doubled) and its type byte; 255 is an
/// animation (its target's number, schema, property count and properties follow), anything else
/// the schema of a generator (whose default values follow).
pub open spec fn decode_clip(schemas: Seq<Seq<Seq<PropertyType>>>, id: u32, c: ExportBytes) -> Option<(ClipModel, ExportBytes)> {
    match (take_word(c.start_times), take_word(c.durations), take_byte(c.types)) {
        (Some((start, st)), Some((dur, du)), Some((ty, tys))) => {
            let c1 = ExportBytes { start_times: st, durations: du, types: tys, ..c };
            if ty == 255 {
                match (take_byte(c1.targets), take_byte(c1.schemas), take_byte(c1.num_props)) {
                    (Some((target, tg)), Some((si, sc)), Some((np, nps))) => if si < schemas.len() {
                        match decode_properties(
                            schemas[si as int],
                            np as nat,
                            ExportBytes { targets: tg, schemas: sc, num_props: nps, ..c1 },
                        ) {
                            Some((props, c2)) => Some(
                                (
                                    ClipModel {
                                        id,
                                        name: Seq::empty(),
                                        schema: si as usize,
                                        source: SourceModel::Animation(target as u32, props),
                                        offset_frames: doubled(start),
                                        duration_frames: doubled(dur),
                                        property_groups: Seq::empty(),
                                        is_selected: false,
                                    },
                                    c2,
                                ),
                            ),
                            None => None,
                        }
                    } else {
                        None
                    },
                    _ => None,
                }
            } else if ty < schemas.len() {
                match decode_groups(schemas[ty as int], c1) {
                    Some((groups, c2)) => Some(
                        (
                            ClipModel {
                                id,
                                name: Seq::empty(),
                                schema: ty as usize,
                                source: SourceModel::Generator,
                                offset_frames: doubled(start),
                                duration_frames: doubled(dur),
                                property_groups: groups,
                                is_selected: false,
                            },
                            c2,
                        ),
                    ),
                    None => None,
                }
            } else {
                None
            }
        },
        _ => None,
    }
}

/// Reads `n` clips, numbered from `id`.
pub open spec fn decode_clips(schemas: Seq<Seq<Seq<PropertyType>>>, n: nat, id: nat, c: ExportBytes) -> Option<(Seq<ClipModel>, ExportBytes)>
    decreases n,
{
    if n == 0 {
        Some((Seq::empty(), c))
    } else {
        match decode_clip(schemas, id as u32, c) {
            Some((clip, c2)) => prepend(seq![clip], decode_clips(schemas, (n - 1) as nat, id + 1, c2)),
            None => None,
        }
    }
}

/// The columns of the clip section: start times, durations, then types.
pub struct ClipStream<'bytes> {
    pub len: usize,
    pub start_times: Stream<'bytes>,
    pub durations: Stream<'bytes>,
    pub types: Stream<'bytes>,
}

impl<'bytes> ClipStream<'bytes> {
    /// Splits the clip section of `len` clips into its columns.
    pub fn new(stream: Stream<'bytes>, len: usize) -> (r: Self)
        requires
            len * 8 <= stream@.len(),
        ensures
            r.len == len,
            r.start_times@ == stream@.take(4 * len),
            r.durations@ == stream@.subrange(4 * len, 8 * len),
            r.types@ == stream@.skip(8 * len),
    {
        let mut stream = stream;
        let ghost b = stream@;
        let total = stream.len();
        assert(len * 4 <= total);
        let start_times = stream.substream(len * 4);
        let durations = stream.substream(len * 4);
        proof {
            assert(b.skip(4 * len).take(4 * len) =~= b.subrange(4 * len, 8 * len));
            assert(b.skip(4 * len).skip(4 * len) =~= b.skip(8 * len));
        }
        ClipStream { len, start_times, durations, types: stream }
    }
}

/// The columns of the animation clip section: targets, schemas, then property counts.
pub struct AnimationClipStream<'bytes> {
    pub len: usize,
    pub targets: Stream<'bytes>,
    pub schemas: Stream<'bytes>,
    pub num_props: Stream<'bytes>,
}

impl<'bytes> AnimationClipStream<'bytes> {
    /// Splits the animation clip section of `len` records into its columns.
    pub fn new(stream: Stream<'bytes>, len: usize) -> (r: Self)
        requires
            len * 2 <= stream@.len(),
        ensures
            r.len == len,
            r.targets@ == stream@.take(len as int),
            r.schemas@ == stream@.subrange(len as int, 2 * len),
            r.num_props@ == stream@.skip(2 * len),
    {
        let mut stream = stream;
        let ghost b = stream@;
        let targets = stream.substream(len);
        let schemas = stream.substream(len);
        proof {
            assert(b.skip(len as int).take(len as int) =~= b.subrange(len as int, 2 * len));
            assert(b.skip(len as int).skip(len as int) =~= b.skip(2 * len));
        }
        AnimationClipStream { len, targets, schemas, num_props: stream }
    }
}

/// The columns of the animated property section: target groups, target properties, then field
/// counts.
pub struct AnimationPropertyStream<'bytes> {
    pub len: usize,
    pub target_groups: Stream<'bytes>,
    pub target_props: Stream<'bytes>,
    pub num_fields: Stream<'bytes>,
}

impl<'bytes> AnimationPropertyStream<'bytes> {
    /// Splits the animated property section of `len` records into its columns.
    pub fn new(stream: Stream<'bytes>, len: usize) -> (r: Self)
        requires
            len * 2 <= stream@.len(),
        ensures
            r.len == len,
            r.target_groups@ == stream@.take(len as int),
            r.target_props@ == stream@.subrange(len as int, 2 * len),
            r.num_fields@ == stream@.skip(2 * len),
    {
        let mut stream = stream;
        let ghost b = stream@;
        let target_groups = stream.substream(len);
        let target_props = stream.substream(len);
        proof {
            assert(b.skip(len as int).take(len as int) =~= b.subrange(len as int, 2 * len));
            assert(b.skip(len as int).skip(len as int) =~= b.skip(2 * len));
        }
        AnimationPropertyStream { len, target_groups, target_props, num_fields: stream }
    }
}

/// The columns of the curve section: start offsets, then segment counts.
pub struct AnimationFieldStream<'bytes> {
    pub len: usize,
    pub local_offsets: Stream<'bytes>,
    pub num_segments: Stream<'bytes>,
}

impl<'bytes> AnimationFieldStream<'bytes> {
    /// Splits the curve section of `len` curves into its columns.
    pub fn new(stream: Stream<'bytes>, len: usize) -> (r: Self)
        requires
            len * 4 <= stream@.len(),
        ensures
            r.len == len,
            r.local_offsets@ == stream@.take(4 * len),
            r.num_segments@ == stream@.skip(4 * len),
    {
        let mut stream = stream;
        let total = stream.len();
        assert(len * 4 <= total);
        let local_offsets = stream.substream(len * 4);
        AnimationFieldStream { len, local_offsets, num_segments: stream }
    }
}

/// The columns of the segment section: durations, then easings.
pub struct SegmentStream<'bytes> {
    pub len: usize,
    pub durations: Stream<'bytes>,
    pub interpolations: Stream<'bytes>,
}

impl<'bytes> SegmentStream<'bytes> {
    /// Splits the segment section of `len` segments into its columns.
    pub fn new(stream: Stream<'bytes>, len: usize) -> (r: Self)
        requires
            len * 4 <= stream@.len(),
        ensures
            r.len == len,
            r.durations@ == stream@.take(4 * len),
            r.interpolations@ == stream@.skip(4 * len),
    {
        let mut stream = stream;
        let total = stream.len();
        assert(len * 4 <= total);
        let durations = stream.substream(len * 4);
        SegmentStream { len, durations, interpolations: stream }
    }
}

/// The four value columns.
pub struct PropValStream<'bytes> {
    pub x: Stream<'bytes>,
    pub y: Stream<'bytes>,
    pub z: Stream<'bytes>,
    pub w: Stream<'bytes>,
}

/// Every column of a blob, each at its read position.
pub struct Columns<'bytes> {
    pub clips: ClipStream<'bytes>,
    pub anims: AnimationClipStream<'bytes>,
    pub props: AnimationPropertyStream<'bytes>,
    pub fields: AnimationFieldStream<'bytes>,
    pub segments: SegmentStream<'bytes>,
    pub vals: PropValStream<'bytes>,
}

impl<'bytes> View for Columns<'bytes> {
    type V = ExportBytes;

    open spec fn view(&self) -> ExportBytes {
        ExportBytes {
            start_times: self.clips.start_times@,
            durations: self.clips.durations@,
            types: self.clips.types@,
            targets: self.anims.targets@,
            schemas: self.anims.schemas@,
            num_props: self.anims.num_props@,
            target_groups: self.props.target_groups@,
            target_props: self.props.target_props@,
            num_fields: self.props.num_fields@,
            local_offsets: self.fields.local_offsets@,
            num_segments: self.fields.num_segments@,
            segment_durations: self.segments.durations@,
            interpolations: self.segments.interpolations@,
            val0: self.vals.x@,
            val1: self.vals.y@,
            val2: self.vals.z@,
            val3: self.vals.w@,
        }
    }
}

/// Reads a value of type `ty` from the value columns (see `decode_value`).
fn read_value(ty: PropertyType, c: &mut Columns) -> (r: Option<PropertyValue>)
    ensures
        match r {
            Some(v) => decode_value(ty, old(c)@) == Some((v, final(c)@)),
            None => decode_value(ty, old(c)@) is None,
        },
{
    let ghost c0 = c@;
    match ty {
        PropertyType::ClipReference => {
            if c.vals.x.len() < 1 {
                return None;
            }
            let b = c.vals.x.read_u8();
            let v = if b == 255 {
                PropertyValue::ClipReference(None)
            } else {
                PropertyValue::ClipReference(Some(b as u32))
            };
            assert(c@ =~= ExportBytes { val0: c0.val0.skip(1), ..c0 });
            Some(v)
        },
        PropertyType::Float => {
            if c.vals.x.len() < 4 {
                return None;
            }
            let a = c.vals.x.read_u32();
            assert(c@ =~= ExportBytes { val0: c0.val0.skip(4), ..c0 });
            Some(PropertyValue::Float(a))
        },
        PropertyType::Vec2 => {
            if c.vals.x.len() < 4 || c.vals.y.len() < 4 {
                return None;
            }
            let a = c.vals.x.read_u32();
            let b = c.vals.y.read_u32();
            assert(c@ =~= ExportBytes { val0: c0.val0.skip(4), val1: c0.val1.skip(4), ..c0 });
            Some(PropertyValue::Vec2(a, b))
        },
        PropertyType::Vec3 | PropertyType::RgbColor => {
            if c.vals.x.len() < 4 || c.vals.y.len() < 4 || c.vals.z.len() < 4 {
                return None;
            }
            let a = c.vals.x.read_u32();
            let b = c.vals.y.read_u32();
            let d = c.vals.z.read_u32();
            assert(c@ =~= ExportBytes {
                val0: c0.val0.skip(4),
                val1: c0.val1.skip(4),
                val2: c0.val2.skip(4),
                ..c0
            });
            if matches!(ty, PropertyType::Vec3) {
                Some(PropertyValue::Vec3(a, b, d))
            } else {
                Some(PropertyValue::RgbColor(a, b, d))
            }
        },
        _ => {
            if c.vals.x.len() < 4 || c.vals.y.len() < 4 || c.vals.z.len() < 4 || c.vals.w.len() < 4 {
                return None;
            }
            let a = c.vals.x.read_u32();
            let b = c.vals.y.read_u32();
            let d = c.vals.z.read_u32();
            let e = c.vals.w.read_u32();
            assert(c@ =~= ExportBytes {
                val0: c0.val0.skip(4),
                val1: c0.val1.skip(4),
                val2: c0.val2.skip(4),
                val3: c0.val3.skip(4),
                ..c0
            });
            if matches!(ty, PropertyType::Vec4) {
                Some(PropertyValue::Vec4(a, b, d, e))
            } else if matches!(ty, PropertyType::RgbaColor) {
                Some(PropertyValue::RgbaColor(a, b, d, e))
            } else {
                Some(PropertyValue::Rotation(a, b, d, e))
            }
        },
    }
}

pub proof fn lemma_prepend_empty<A>(o: Option<(Seq<A>, ExportBytes)>)
    ensures
        prepend(Seq::<A>::empty(), o) == o,
{
    match o {
        Some((x, c)) => {
            assert(Seq::<A>::empty() + x =~= x);
        },
        None => {},
    }
}

pub proof fn lemma_prepend_prepend<A>(a: Seq<A>, b: Seq<A>, o: Option<(Seq<A>, ExportBytes)>)
    ensures
        prepend(a, prepend(b, o)) == prepend(a + b, o),
{
    match o {
        Some((x, c)) => {
            assert(a + (b + x) =~= (a + b) + x);
        },
        None => {},
    }
}

pub proof fn lemma_prepend_done<A>(a: Seq<A>, c: ExportBytes)
    ensures
        prepend(a, Some((Seq::<A>::empty(), c))) == Some((a, c)),
{
    assert(a + Seq::<A>::empty() =~= a);
}

/// Reads a segment (see `decode_segment`).
fn read_segment(ty: PropertyType, c: &mut Columns) -> (r: Option<CurveSegment>)
    ensures
        match r {
            Some(s) => decode_segment(ty, old(c)@) == Some((s, final(c)@)),
            None => decode_segment(ty, old(c)@) is None,
        },
{
    let ghost c0 = c@;
    if c.segments.durations.len() < 4 {
        return None;
    }
    let d = c.segments.durations.read_u32();
    assert(c@ =~= ExportBytes { segment_durations: c0.segment_durations.skip(4), ..c0 });
    let v = match read_value(ty, c) {
        Some(v) => v,
        None => {
            return None;
        },
    };
    let ghost c2 = c@;
    if c.segments.interpolations.len() < 1 {
        return None;
    }
    let tag = c.segments.interpolations.read_u8();
    let interpolation = if tag == 0 {
        CurveInterpolation::Linear
    } else if tag == 1 && c.segments.interpolations.len() >= 16 {
        let ghost rest = c.segments.interpolations@;
        let c1 = c.segments.interpolations.read_vector2();
        let c2v = c.segments.interpolations.read_vector2();
        proof {
            assert(rest.skip(8).take(8) =~= rest.subrange(8, 16));
            assert(rest.skip(8).skip(8) =~= rest.skip(16));
        }
        CurveInterpolation::CubicBezier(CubicBezier { c1, c2: c2v })
    } else {
        return None;
    };
    assert(c@ =~= ExportBytes { interpolations: c@.interpolations, ..c2 });
    Some(CurveSegment { duration_frames: d.wrapping_mul(2), end_value: v, interpolation })
}

/// Reads `n` segments (see `decode_segments`).
fn read_segments(ty: PropertyType, n: u8, c: &mut Columns) -> (r: Option<Vec<CurveSegment>>)
    ensures
        match r {
            Some(v) => decode_segments(ty, n as nat, old(c)@) == Some((v@, final(c)@)),
            None => decode_segments(ty, n as nat, old(c)@) is None,
        },
{
    let ghost c0 = c@;
    let mut segments: Vec<CurveSegment> = Vec::new();
    let mut k: u8 = 0;
    proof {
        lemma_prepend_empty(decode_segments(ty, n as nat, c0));
    }
    while k < n
        invariant
            k <= n,
            c0 == old(c)@,
            decode_segments(ty, n as nat, c0) == prepend(segments@, decode_segments(ty, (n - k) as nat, c@)),
        decreases n - k,
    {
        let ghost before = c@;
        match read_segment(ty, c) {
            Some(seg) => {
                proof {
                    lemma_prepend_prepend(segments@, seq![seg], decode_segments(ty, (n - k - 1) as nat, c@));
                    assert(segments@ + seq![seg] =~= segments@.push(seg));
                }
                segments.push(seg);
            },
            None => {
                proof {
                    assert(decode_segments(ty, (n - k) as nat, before) is None);
                }
                return None;
            },
        }
        k = k + 1;
    }
    proof {
        lemma_prepend_done(segments@, c@);
    }
    Some(segments)
}

/// Reads an animation curve (see `decode_field`).
fn read_field(ty: PropertyType, c: &mut Columns) -> (r: Option<AnimatedPropertyField>)
    ensures
        match r {
            Some(f) => decode_field(ty, old(c)@) == Some((field_model(f), final(c)@)),
            None => decode_field(ty, old(c)@) is None,
        },
{
    let ghost c0 = c@;
    if c.fields.local_offsets.len() < 4 {
        return None;
    }
    let off = c.fields.local_offsets.read_i32();
    proof {
        assert(c@ =~= ExportBytes { local_offsets: c0.local_offsets.skip(4), ..c0 });
        let w = le_word_u32(c0.local_offsets.take(4));
        assert(off == w as i32);
    }
    let start_value = match read_value(ty, c) {
        Some(v) => v,
        None => {
            return None;
        },
    };
    let ghost c2 = c@;
    if c.fields.num_segments.len() < 1 {
        return None;
    }
    let n = c.fields.num_segments.read_u8();
    assert(c@ =~= ExportBytes { num_segments: c2.num_segments.skip(1), ..c2 });
    let segments = match read_segments(ty, n, c) {
        Some(v) => v,
        None => {
            return None;
        },
    };
    Some(AnimatedPropertyField { local_offset_frames: off.wrapping_mul(2), start_value, segments })
}

/// Reads `n` curves (see `decode_fields`).
fn read_fields(ty: PropertyType, n: u8, c: &mut Columns) -> (r: Option<Vec<AnimatedPropertyField>>)
    ensures
        match r {
            Some(v) => decode_fields(ty, n as nat, old(c)@) == Some(
                (v@.map_values(|f: AnimatedPropertyField| field_model(f)), final(c)@),
            ),
            None => decode_fields(ty, n as nat, old(c)@) is None,
        },
{
    let ghost c0 = c@;
    let mut fields: Vec<AnimatedPropertyField> = Vec::new();
    let mut k: u8 = 0;
    proof {
        assert(fields@.map_values(|f: AnimatedPropertyField| field_model(f)) =~= Seq::<FieldModel>::empty());
        lemma_prepend_empty(decode_fields(ty, n as nat, c0));
    }
    while k < n
        invariant
            k <= n,
            c0 == old(c)@,
            decode_fields(ty, n as nat, c0) == prepend(
                fields@.map_values(|f: AnimatedPropertyField| field_model(f)),
                decode_fields(ty, (n - k) as nat, c@),
            ),
        decreases n - k,
    {
        let ghost before = c@;
        match read_field(ty, c) {
            Some(f) => {
                proof {
                    let m = fields@.map_values(|f: AnimatedPropertyField| field_model(f));
                    lemma_prepend_prepend(m, seq![field_model(f)], decode_fields(ty, (n - k - 1) as nat, c@));
                    assert(fields@.push(f).map_values(|f: AnimatedPropertyField| field_model(f)) =~= m
                        + seq![field_model(f)]);
                }
                fields.push(f);
            },
            None => {
                proof {
                    assert(decode_fields(ty, (n - k) as nat, before) is None);
                }
                return None;
            },
        }
        k = k + 1;
    }
    proof {
        lemma_prepend_done(fields@.map_values(|f: AnimatedPropertyField| field_model(f)), c@);
    }
    Some(fields)
}

/// Reads an animated property of a clip with schema `schema` (see `decode_property`).
fn read_property(schema: &GeneratorSchema, c: &mut Columns) -> (r: Option<AnimatedProperty>)
    ensures
        match r {
            Some(p) => decode_property(schema_types(*schema), old(c)@) == Some((property_model(p), final(c)@)),
            None => decode_property(schema_types(*schema), old(c)@) is None,
        },
{
    let ghost c0 = c@;
    let ghost st = schema_types(*schema);
    if c.props.target_groups.len() < 1 || c.props.target_props.len() < 1 || c.props.num_fields.len() < 1 {
        return None;
    }
    let g = c.props.target_groups.read_u8();
    let p = c.props.target_props.read_u8();
    let nf = c.props.num_fields.read_u8();
    if g as usize >= schema.groups.len() || p as usize >= schema.groups[g as usize].properties.len() {
        return None;
    }
    let ty = schema.groups[g as usize].properties[p as usize];
    proof {
        assert(st[g as int] == schema.groups@[g as int].properties@);
        assert(c@ =~= ExportBytes {
            target_groups: c0.target_groups.skip(1),
            target_props: c0.target_props.skip(1),
            num_fields: c0.num_fields.skip(1),
            ..c0
        });
    }
    let target = if nf == 0 {
        match read_field(ty, c) {
            Some(f) => AnimatedPropertyTarget::Joined(f),
            None => {
                return None;
            },
        }
    } else {
        match read_fields(PropertyType::Float, nf, c) {
            Some(fs) => AnimatedPropertyTarget::Separate(fs),
            None => {
                return None;
            },
        }
    };
    Some(AnimatedProperty { group_index: g as usize, property_index: p as usize, target, is_collapsed: false })
}

/// Reads `n` animated properties (see `decode_properties`).
fn read_properties(schema: &GeneratorSchema, n: u8, c: &mut Columns) -> (r: Option<Vec<AnimatedProperty>>)
    ensures
        match r {
            Some(v) => decode_properties(schema_types(*schema), n as nat, old(c)@) == Some(
                (v@.map_values(|p: AnimatedProperty| property_model(p)), final(c)@),
            ),
            None => decode_properties(schema_types(*schema), n as nat, old(c)@) is None,
        },
{
    let ghost c0 = c@;
    let ghost st = schema_types(*schema);
    let mut props: Vec<AnimatedProperty> = Vec::new();
    let mut k: u8 = 0;
    proof {
        assert(props@.map_values(|p: AnimatedProperty| property_model(p)) =~= Seq::<PropertyModel>::empty());
        lemma_prepend_empty(decode_properties(st, n as nat, c0));
    }
    while k < n
        invariant
            k <= n,
            st == schema_types(*schema),
            c0 == old(c)@,
            decode_properties(st, n as nat, c0) == prepend(
                props@.map_values(|p: AnimatedProperty| property_model(p)),
                decode_properties(st, (n - k) as nat, c@),
            ),
        decreases n - k,
    {
        let ghost before = c@;
        match read_property(schema, c) {
            Some(p) => {
                proof {
                    let m = props@.map_values(|p: AnimatedProperty| property_model(p));
                    lemma_prepend_prepend(m, seq![property_model(p)], decode_properties(st, (n - k - 1) as nat, c@));
                    assert(props@.push(p).map_values(|p: AnimatedProperty| property_model(p)) =~= m
                        + seq![property_model(p)]);
                }
                props.push(p);
            },
            None => {
                proof {
                    assert(decode_properties(st, (n - k) as nat, before) is None);
                }
                return None;
            },
        }
        k = k + 1;
    }
    proof {
        lemma_prepend_done(props@.map_values(|p: AnimatedProperty| property_model(p)), c@);
    }
    Some(props)
}

/// Reads the default values of a group (see `decode_group`).
fn read_group(tys: &Vec<PropertyType>, c: &mut Columns) -> (r: Option<Vec<PropertyDefault>>)
    ensures
        match r {
            Some(v) => decode_group(tys@, old(c)@) == Some((v@, final(c)@)),
            None => decode_group(tys@, old(c)@) is None,
        },
{
    let ghost c0 = c@;
    let mut defaults: Vec<PropertyDefault> = Vec::new();
    let mut k: usize = 0;
    proof {
        assert(tys@.skip(0) =~= tys@);
        lemma_prepend_empty(decode_group(tys@, c0));
    }
    while k < tys.len()
        invariant
            k <= tys@.len(),
            c0 == old(c)@,
            decode_group(tys@, c0) == prepend(defaults@, decode_group(tys@.skip(k as int), c@)),
        decreases tys@.len() - k,
    {
        proof {
            assert(tys@.skip(k as int)[0] == tys@[k as int]);
            assert(tys@.skip(k as int).drop_first() =~= tys@.skip(k + 1));
        }
        let ghost before = c@;
        match read_value(tys[k], c) {
            Some(v) => {
                let d = PropertyDefault { value: v, is_override: false };
                proof {
                    lemma_prepend_prepend(defaults@, seq![d], decode_group(tys@.skip(k + 1), c@));
                    assert(defaults@ + seq![d] =~= defaults@.push(d));
                }
                defaults.push(d);
            },
            None => {
                proof {
                    assert(decode_group(tys@.skip(k as int), before) is None);
                }
                return None;
            },
        }
        k = k + 1;
    }
    proof {
        assert(tys@.skip(k as int) =~= Seq::<PropertyType>::empty());
        lemma_prepend_done(defaults@, c@);
    }
    Some(defaults)
}

/// Reads the default values of a generator clip with schema `schema` (see `decode_groups`).
fn read_groups(schema: &GeneratorSchema, c: &mut Columns) -> (r: Option<Vec<PropertyGroup>>)
    ensures
        match r {
            Some(v) => decode_groups(schema_types(*schema), old(c)@) == Some(
                (v@.map_values(|g: PropertyGroup| g.defaults@), final(c)@),
            ),
            None => decode_groups(schema_types(*schema), old(c)@) is None,
        },
{
    let ghost c0 = c@;
    let ghost st = schema_types(*schema);
    let mut groups: Vec<PropertyGroup> = Vec::new();
    let mut k: usize = 0;
    proof {
        assert(st.skip(0) =~= st);
        assert(groups@.map_values(|g: PropertyGroup| g.defaults@) =~= Seq::<Seq<PropertyDefault>>::empty());
        lemma_prepend_empty(decode_groups(st, c0));
    }
    while k < schema.groups.len()
        invariant
            k <= st.len(),
            st == schema_types(*schema),
            st.len() == schema.groups@.len(),
            c0 == old(c)@,
            decode_groups(st, c0) == prepend(
                groups@.map_values(|g: PropertyGroup| g.defaults@),
                decode_groups(st.skip(k as int), c@),
            ),
        decreases st.len() - k,
    {
        proof {
            assert(st.skip(k as int)[0] == st[k as int]);
            assert(st[k as int] == schema.groups@[k as int].properties@);
            assert(st.skip(k as int).drop_first() =~= st.skip(k + 1));
        }
        let ghost before = c@;
        match read_group(&schema.groups[k].properties, c) {
            Some(defaults) => {
                let g = PropertyGroup { defaults };
                proof {
                    let m = groups@.map_values(|g: PropertyGroup| g.defaults@);
                    lemma_prepend_prepend(m, seq![g.defaults@], decode_groups(st.skip(k + 1), c@));
                    assert(groups@.push(g).map_values(|g: PropertyGroup| g.defaults@) =~= m + seq![g.defaults@]);
                }
                groups.push(g);
            },
            None => {
                proof {
                    assert(decode_groups(st.skip(k as int), before) is None);
                }
                return None;
            },
        }
        k = k + 1;
    }
    proof {
        assert(st.skip(k as int) =~= Seq::<Seq<PropertyType>>::empty());
        lemma_prepend_done(groups@.map_values(|g: PropertyGroup| g.defaults@), c@);
    }
    Some(groups)
}

/// Reads clip number `id` (see `decode_clip`).
fn read_clip(schemas: &Vec<GeneratorSchema>, id: u32, c: &mut Columns) -> (r: Option<Clip>)
    ensures
        match r {
            Some(clip) => decode_clip(schemas_types(schemas@), id, old(c)@) == Some((clip_model(clip), final(c)@)),
            None => decode_clip(schemas_types(schemas@), id, old(c)@) is None,
        },
{
    let ghost c0 = c@;
    let ghost ss = schemas_types(schemas@);
    if c.clips.start_times.len() < 4 || c.clips.durations.len() < 4 || c.clips.types.len() < 1 {
        return None;
    }
    let start = c.clips.start_times.read_u32();
    let duration = c.clips.durations.read_u32();
    let ty = c.clips.types.read_u8();
    let ghost c1 = c@;
    proof {
        assert(c1 =~= ExportBytes {
            start_times: c0.start_times.skip(4),
            durations: c0.durations.skip(4),
            types: c0.types.skip(1),
            ..c0
        });
    }
    if ty == 255 {
        if c.anims.targets.len() < 1 || c.anims.schemas.len() < 1 || c.anims.num_props.len() < 1 {
            return None;
        }
        let target = c.anims.targets.read_u8();
        let si = c.anims.schemas.read_u8();
        let np = c.anims.num_props.read_u8();
        if si as usize >= schemas.len() {
            return None;
        }
        proof {
            assert(c@ =~= ExportBytes {
                targets: c1.targets.skip(1),
                schemas: c1.schemas.skip(1),
                num_props: c1.num_props.skip(1),
                ..c1
            });
            assert(ss[si as int] == schema_types(schemas@[si as int]));
        }
        let properties = match read_properties(&schemas[si as usize], np, c) {
            Some(v) => v,
            None => {
                return None;
            },
        };
        let clip = Clip {
            id,
            name: String::new(),
            schema: si as usize,
            source: ClipSource::Animation(AnimationClip { target_clip: target as u32, properties }),
            offset_frames: start.wrapping_mul(2),
            duration_frames: duration.wrapping_mul(2),
            property_groups: Vec::new(),
            is_selected: false,
        };
        proof {
            assert(clip_model(clip).property_groups =~= Seq::<Seq<PropertyDefault>>::empty());
        }
        Some(clip)
    } else {
        if ty as usize >= schemas.len() {
            return None;
        }
        proof {
            assert(ss[ty as int] == schema_types(schemas@[ty as int]));
        }
        let groups = match read_groups(&schemas[ty as usize], c) {
            Some(v) => v,
            None => {
                return None;
            },
        };
        Some(
            Clip {
                id,
                name: String::new(),
                schema: ty as usize,
                source: ClipSource::Generator,
                offset_frames: start.wrapping_mul(2),
                duration_frames: duration.wrapping_mul(2),
                property_groups: groups,
                is_selected: false,
            },
        )
    }
}

/// Reads `n` clips numbered from 0 (see `decode_clips`).
fn read_clips(schemas: &Vec<GeneratorSchema>, n: u8, c: &mut Columns) -> (r: Option<Vec<Clip>>)
    ensures
        match r {
            Some(v) => decode_clips(schemas_types(schemas@), n as nat, 0, old(c)@) == Some(
                (v@.map_values(|clip: Clip| clip_model(clip)), final(c)@),
            ),
            None => decode_clips(schemas_types(schemas@), n as nat, 0, old(c)@) is None,
        },
{
    let ghost c0 = c@;
    let ghost ss = schemas_types(schemas@);
    let mut clips: Vec<Clip> = Vec::new();
    let mut k: u8 = 0;
    proof {
        assert(clips@.map_values(|clip: Clip| clip_model(clip)) =~= Seq::<ClipModel>::empty());
        lemma_prepend_empty(decode_clips(ss, n as nat, 0, c0));
    }
    while k < n
        invariant
            k <= n,
            c0 == old(c)@,
            ss == schemas_types(schemas@),
            decode_clips(ss, n as nat, 0, c0) == prepend(
                clips@.map_values(|clip: Clip| clip_model(clip)),
                decode_clips(ss, (n - k) as nat, k as nat, c@),
            ),
        decreases n - k,
    {
        let ghost before = c@;
        match read_clip(schemas, k as u32, c) {
            Some(clip) => {
                proof {
                    let m = clips@.map_values(|clip: Clip| clip_model(clip));
                    lemma_prepend_prepend(m, seq![clip_model(clip)], decode_clips(ss, (n - k - 1) as nat, (k + 1) as nat, c@));
                    assert(clips@.push(clip).map_values(|clip: Clip| clip_model(clip)) =~= m + seq![clip_model(clip)]);
                }
                clips.push(clip);
            },
            None => {
                proof {
                    assert(decode_clips(ss, (n - k) as nat, k as nat, before) is None);
                }
                return None;
            },
        }
        k = k + 1;
    }
    proof {
        lemma_prepend_done(clips@.map_values(|clip: Clip| clip_model(clip)), c@);
    }
    Some(clips)
}

/// A column behind its 32-bit byte count, and what follows it.
pub open spec fn take_column(b: Seq<u8>) -> Option<(Seq<u8>, Seq<u8>)> {
    match take_word(b) {
        Some((size, r)) => if size <= r.len() {
            Some((r.take(size as int), r.skip(size as int)))
        } else {
            None
        },
        None => None,
    }
}

/// A record count, then a section of columns behind its byte count, and what follows it.
pub open spec fn take_section(b: Seq<u8>) -> Option<(u8, Seq<u8>, Seq<u8>)> {
    match take_byte(b) {
        Some((n, r)) => match take_column(r) {
            Some((sec, rest)) => Some((n, sec, rest)),
            None => None,
        },
        None => None,
    }
}

/// The five sections of a blob that hold fixed-size records, each with its record count.
pub struct Sections {
    pub nc: u8,
    pub s1: Seq<u8>,
    pub na: u8,
    pub s2: Seq<u8>,
    pub np: u8,
    pub s3: Seq<u8>,
    pub nf: u8,
    pub s4: Seq<u8>,
    pub ns: u8,
    pub s5: Seq<u8>,
}

/// The four value columns of a blob.
pub struct ValueColumns {
    pub v0: Seq<u8>,
    pub v1: Seq<u8>,
    pub v2: Seq<u8>,
    pub v3: Seq<u8>,
}

/// Reads the five record sections (clips, animation clips, animated properties, curves,
/// segments), each a count and its columns behind their byte count.
pub open spec fn take_sections(b: Seq<u8>) -> Option<(Sections, Seq<u8>)> {
    match take_section(b) {
        Some((nc, s1, b2)) => match take_section(b2) {
            Some((na, s2, b3)) => match take_section(b3) {
                Some((np, s3, b4)) => match take_section(b4) {
                    Some((nf, s4, b5)) => match take_section(b5) {
                        Some((ns, s5, b6)) => Some(
                            (Sections { nc, s1, na, s2, np, s3, nf, s4, ns, s5 }, b6),
                        ),
                        None => None,
                    },
                    None => None,
                },
                None => None,
            },
            None => None,
        },
        None => None,
    }
}

/// Reads the four value columns, each behind its byte count.
pub open spec fn take_value_columns(b: Seq<u8>) -> Option<(ValueColumns, Seq<u8>)> {
    match take_column(b) {
        Some((v0, b7)) => match take_column(b7) {
            Some((v1, b8)) => match take_column(b8) {
                Some((v2, b9)) => match take_column(b9) {
                    Some((v3, rest)) => Some((ValueColumns { v0, v1, v2, v3 }, rest)),
                    None => None,
                },
                None => None,
            },
            None => None,
        },
        None => None,
    }
}

/// Each section is long enough for the fixed-size columns of its records.
pub open spec fn sections_fit(s: Sections) -> bool {
    &&& 8 * s.nc <= s.s1.len()
    &&& 2 * s.na <= s.s2.len()
    &&& 2 * s.np <= s.s3.len()
    &&& 4 * s.nf <= s.s4.len()
    &&& 4 * s.ns <= s.s5.len()
}

/// The columns of the sections: a section's fixed-size columns take as many bytes as its count
/// says, and its last column takes the rest.
pub open spec fn split_columns(s: Sections, v: ValueColumns) -> ExportBytes {
    ExportBytes {
        start_times: s.s1.take(4 * s.nc),
        durations: s.s1.subrange(4 * s.nc, 8 * s.nc),
        types: s.s1.skip(8 * s.nc),
        targets: s.s2.take(s.na as int),
        schemas: s.s2.subrange(s.na as int, 2 * s.na),
        num_props: s.s2.skip(2 * s.na),
        target_groups: s.s3.take(s.np as int),
        target_props: s.s3.subrange(s.np as int, 2 * s.np),
        num_fields: s.s3.skip(2 * s.np),
        local_offsets: s.s4.take(4 * s.nf),
        num_segments: s.s4.skip(4 * s.nf),
        segment_durations: s.s5.take(4 * s.ns),
        interpolations: s.s5.skip(4 * s.ns),
        val0: v.v0,
        val1: v.v1,
        val2: v.v2,
        val3: v.v3,
    }
}

/// Splits a blob into the project duration, the clip count and the columns (see
/// `timeline_bytes` of the exporter for the layout); a section too short for its count is not
/// a blob.
pub open spec fn decode_sections(b: Seq<u8>) -> Option<(u32, u8, ExportBytes, Seq<u8>)> {
    match take_word(b) {
        Some((duration, b1)) => match take_sections(b1) {
            Some((secs, b6)) => match take_value_columns(b6) {
                Some((vals, rest)) => if sections_fit(secs) {
                    Some((duration, secs.nc, split_columns(secs, vals), rest))
                } else {
                    None
                },
                None => None,
            },
            None => None,
        },
        None => None,
    }
}

/// Reads a blob: the project duration and the clips, numbered in blob order, or `None` when the
/// bytes are not a blob for these schemas.
pub open spec fn decode_timeline(b: Seq<u8>, schemas: Seq<Seq<Seq<PropertyType>>>) -> Option<(u32, Seq<ClipModel>, Seq<u8>)> {
    match decode_sections(b) {
        Some((duration, nc, cols, rest)) => match decode_clips(schemas, nc as nat, 0, cols) {
            Some((clips, _)) => Some((duration, clips, rest)),
            None => None,
        },
        None => None,
    }
}

/// Reads a column behind its byte count.
fn read_column<'bytes>(s: &mut Stream<'bytes>) -> (r: Option<Stream<'bytes>>)
    ensures
        match r {
            Some(col) => take_column(old(s)@) == Some((col@, final(s)@)),
            None => take_column(old(s)@) is None,
        },
{
    if s.len() < 4 {
        return None;
    }
    let ghost b = s@;
    let mut rest = Stream::new(s.as_slice());
    let size = rest.read_u32();
    if rest.len() < size as usize {
        return None;
    }
    let col = rest.substream(size as usize);
    *s = rest;
    Some(col)
}

/// Reads a record count and its section.
fn read_section<'bytes>(s: &mut Stream<'bytes>) -> (r: Option<(u8, Stream<'bytes>)>)
    ensures
        match r {
            Some((n, sec)) => take_section(old(s)@) == Some((n, sec@, final(s)@)),
            None => take_section(old(s)@) is None,
        },
{
    if s.len() < 1 {
        return None;
    }
    let mut rest = Stream::new(s.as_slice());
    let n = rest.read_u8();
    match read_column(&mut rest) {
        Some(sec) => {
            *s = rest;
            Some((n, sec))
        },
        None => None,
    }
}

/// The five record sections, read.
struct ReadSections<'bytes> {
    nc: u8,
    s1: Stream<'bytes>,
    na: u8,
    s2: Stream<'bytes>,
    np: u8,
    s3: Stream<'bytes>,
    nf: u8,
    s4: Stream<'bytes>,
    ns: u8,
    s5: Stream<'bytes>,
}

impl<'bytes> ReadSections<'bytes> {
    spec fn view_sections(&self) -> Sections {
        Sections {
            nc: self.nc,
            s1: self.s1@,
            na: self.na,
            s2: self.s2@,
            np: self.np,
            s3: self.s3@,
            nf: self.nf,
            s4: self.s4@,
            ns: self.ns,
            s5: self.s5@,
        }
    }
}

/// Reads the five record sections (see `take_sections`).
fn read_record_sections<'bytes>(s: &mut Stream<'bytes>) -> (r: Option<ReadSections<'bytes>>)
    ensures
        match r {
            Some(x) => take_sections(old(s)@) == Some((x.view_sections(), final(s)@)),
            None => take_sections(old(s)@) is None,
        },
{
    let mut rest = Stream::new(s.as_slice());
    let (nc, s1) = match read_section(&mut rest) {
        Some(x) => x,
        None => {
            return None;
        },
    };
    let (na, s2) = match read_section(&mut rest) {
        Some(x) => x,
        None => {
            return None;
        },
    };
    let (np, s3) = match read_section(&mut rest) {
        Some(x) => x,
        None => {
            return None;
        },
    };
    let (nf, s4) = match read_section(&mut rest) {
        Some(x) => x,
        None => {
            return None;
        },
    };
    let (ns, s5) = match read_section(&mut rest) {
        Some(x) => x,
        None => {
            return None;
        },
    };
    *s = rest;
    Some(ReadSections { nc, s1, na, s2, np, s3, nf, s4, ns, s5 })
}

/// Reads the four value columns (see `take_value_columns`).
fn read_value_columns<'bytes>(s: &mut Stream<'bytes>) -> (r: Option<PropValStream<'bytes>>)
    ensures
        match r {
            Some(v) => take_value_columns(old(s)@) == Some(
                (ValueColumns { v0: v.x@, v1: v.y@, v2: v.z@, v3: v.w@ }, final(s)@),
            ),
            None => take_value_columns(old(s)@) is None,
        },
{
    let mut rest = Stream::new(s.as_slice());
    let x = match read_column(&mut rest) {
        Some(c) => c,
        None => {
            return None;
        },
    };
    let y = match read_column(&mut rest) {
        Some(c) => c,
        None => {
            return None;
        },
    };
    let z = match read_column(&mut rest) {
        Some(c) => c,
        None => {
            return None;
        },
    };
    let w = match read_column(&mut rest) {
        Some(c) => c,
        None => {
            return None;
        },
    };
    *s = rest;
    Some(PropValStream { x, y, z, w })
}

/// Splits a blob into its columns (see `decode_sections`).
fn read_sections<'bytes>(s: &mut Stream<'bytes>) -> (r: Option<(u32, u8, Columns<'bytes>)>)
    ensures
        match r {
            Some((d, n, cols)) => decode_sections(old(s)@) == Some((d, n, cols@, final(s)@)),
            None => decode_sections(old(s)@) is None,
        },
{
    if s.len() < 4 {
        return None;
    }
    let mut rest = Stream::new(s.as_slice());
    let duration = rest.read_u32();
    let secs = match read_record_sections(&mut rest) {
        Some(x) => x,
        None => {
            return None;
        },
    };
    let vals = match read_value_columns(&mut rest) {
        Some(x) => x,
        None => {
            return None;
        },
    };
    let ghost sv = secs.view_sections();
    let ReadSections { nc, s1, na, s2, np, s3, nf, s4, ns, s5 } = secs;
    if s1.len() / 8 < nc as usize || s2.len() / 2 < na as usize || s3.len() / 2 < np as usize || s4.len()
        / 4 < nf as usize || s5.len() / 4 < ns as usize {
        return None;
    }
    let cols = Columns {
        clips: ClipStream::new(s1, nc as usize),
        anims: AnimationClipStream::new(s2, na as usize),
        props: AnimationPropertyStream::new(s3, np as usize),
        fields: AnimationFieldStream::new(s4, nf as usize),
        segments: SegmentStream::new(s5, ns as usize),
        vals,
    };
    proof {
        assert(cols@ =~= split_columns(sv, ValueColumns { v0: cols.vals.x@, v1: cols.vals.y@, v2: cols.vals.z@, v3: cols.vals.w@ }));
    }
    *s = rest;
    Some((duration, nc, cols))
}

/// Reads the blob at the start of `stream` into the project duration and a timeline with one
/// track per clip (see `decode_timeline`); `None`, when the bytes are not a blob for these
/// schemas. Generator clips come back without their generators: those are made by the engine.
pub fn deserialize_timeline<'bytes>(stream: &mut Stream<'bytes>, schemas: &Vec<GeneratorSchema>) -> (r: Option<(u32, Timeline)>)
    ensures
        match r {
            Some((duration, t)) => {
                &&& decode_timeline(old(stream)@, schemas_types(schemas@)) matches Some((d, clips, rest))
                &&& d == duration
                &&& rest == final(stream)@
                &&& t.tracks@.len() == clips.len()
                &&& forall|k: int| 0 <= k < clips.len() ==> (#[trigger] t.tracks@[k]).clips@.len() == 1
                    && clip_model(t.tracks@[k].clips@[0]) == clips[k]
            },
            None => decode_timeline(old(stream)@, schemas_types(schemas@)) is None,
        },
{
    let (duration, count, mut cols) = match read_sections(stream) {
        Some(x) => x,
        None => {
            return None;
        },
    };
    let clips = match read_clips(schemas, count, &mut cols) {
        Some(v) => v,
        None => {
            return None;
        },
    };
    let mut tracks: Vec<Track> = Vec::new();
    let ghost all = clips@;
    let mut rest = clips;
    // Pull the clips out front to back, one track each.
    while rest.len() > 0
        invariant
            rest@.len() + tracks@.len() == all.len(),
            rest@ == all.subrange(tracks@.len() as int, all.len() as int),
            forall|j: int| 0 <= j < tracks@.len() ==> (#[trigger] tracks@[j]).clips@.len() == 1
                && tracks@[j].clips@[0] == all[j],
        decreases rest@.len(),
    {
        let clip = rest.remove(0);
        let ghost before = tracks@;
        tracks.push(Track { clips: vec![clip] });
        proof {
            assert forall|j: int| 0 <= j < tracks@.len() implies (#[trigger] tracks@[j]).clips@.len() == 1
                && tracks@[j].clips@[0] == all[j] by {
                if j < before.len() {
                    assert(tracks@[j] == before[j]);
                }
            }
            assert(rest@ =~= all.subrange(tracks@.len() as int, all.len() as int));
        }
    }
    Some((duration, Timeline { tracks }))
}

} // verus!
