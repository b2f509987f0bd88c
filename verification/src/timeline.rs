//! The timeline model: tracks of clips laid out by offsets, and the animation curves that clips carry.
use vstd::prelude::*;
use crate::binary_writer::Vector2;

verus! {

/// The kinds of value a clip property can hold.
#[derive(Clone, Copy, PartialEq, Eq, Debug)]
pub enum PropertyType {
    Float,
    Vec2,
    Vec3,
    Vec4,
    RgbColor,
    RgbaColor,
    Rotation,
    ClipReference,
}

/// A property value. Float components are held as their IEEE-754 bit patterns; a clip
/// reference holds the referenced clip's id.
#[derive(Clone, Copy, PartialEq, Eq, Debug)]
pub enum PropertyValue {
    Float(u32),
    Vec2(u32, u32),
    Vec3(u32, u32, u32),
    Vec4(u32, u32, u32, u32),
    RgbColor(u32, u32, u32),
    RgbaColor(u32, u32, u32, u32),
    Rotation(u32, u32, u32, u32),
    ClipReference(Option<u32>),
}

/// The two control points of a cubic Bezier easing curve.
#[derive(Clone, Copy, PartialEq, Eq, Debug)]
pub struct CubicBezier {
    pub c1: Vector2,
    pub c2: Vector2,
}

#[derive(Clone, Copy, PartialEq, Eq, Debug)]
pub enum CurveInterpolation {
    Linear,
    CubicBezier(CubicBezier),
}

/// One piece of an animation curve: it lasts `duration_frames` and ends at `end_value`.
#[derive(Clone, Copy, PartialEq, Eq, Debug)]
pub struct CurveSegment {
    pub duration_frames: u32,
    pub end_value: PropertyValue,
    pub interpolation: CurveInterpolation,
}

/// An animation curve: it starts at `local_offset_frames` with `start_value`, and each
/// segment moves it on to a new keyframe.
#[derive(Clone, PartialEq, Eq, Debug)]
pub struct AnimatedPropertyField {
    pub local_offset_frames: i32,
    pub start_value: PropertyValue,
    pub segments: Vec<CurveSegment>,
}

#[derive(Clone, PartialEq, Eq, Debug)]
pub enum AnimatedPropertyTarget {
    Joined(AnimatedPropertyField),
    Separate(Vec<AnimatedPropertyField>),
}

/// The animation of one property of the target clip, found by group and property index.
#[derive(Clone, PartialEq, Eq, Debug)]
pub struct AnimatedProperty {
    pub group_index: usize,
    pub property_index: usize,
    pub target: AnimatedPropertyTarget,
    pub is_collapsed: bool,
}

#[derive(Clone, PartialEq, Eq, Debug)]
pub struct AnimationClip {
    /// Id of the clip whose properties this clip animates.
    pub target_clip: u32,
    pub properties: Vec<AnimatedProperty>,
}

/// What a clip plays: a generator of its schema, or an animation of another clip.
#[derive(Clone, PartialEq, Eq, Debug)]
pub enum ClipSource {
    Generator,
    Animation(AnimationClip),
}

#[derive(Clone, Copy, PartialEq, Eq, Debug)]
pub struct PropertyDefault {
    pub value: PropertyValue,
    pub is_override: bool,
}

#[derive(Clone, PartialEq, Eq, Debug)]
pub struct PropertyGroup {
    pub defaults: Vec<PropertyDefault>,
}

/// A clip on a track. It starts `offset_frames` after the end of the clip before it (or
/// after frame 0) and lasts `duration_frames`. `schema` is the index of its generator schema.
#[derive(Clone, PartialEq, Eq, Debug)]
pub struct Clip {
    pub id: u32,
    pub name: String,
    pub schema: usize,
    pub source: ClipSource,
    pub offset_frames: u32,
    pub duration_frames: u32,
    pub property_groups: Vec<PropertyGroup>,
    pub is_selected: bool,
}

#[derive(Clone, PartialEq, Eq, Debug)]
pub struct Track {
    pub clips: Vec<Clip>,
}

#[derive(Clone, PartialEq, Eq, Debug)]
pub struct Timeline {
    pub tracks: Vec<Track>,
}

impl Default for Track {
    fn default() -> (t: Track)
        ensures
            t.clips@.len() == 0,
    {
        Track { clips: Vec::new() }
    }
}

/// End frame of the first `i` clips of a track.
pub open spec fn end_at(clips: Seq<Clip>, i: int) -> int
    decreases i,
{
    if i <= 0 {
        0
    } else {
        end_at(clips, i - 1) + clips[i - 1].offset_frames + clips[i - 1].duration_frames
    }
}

/// Frame at which clip `i` starts.
pub open spec fn start_of(clips: Seq<Clip>, i: int) -> int {
    end_at(clips, i) + clips[i].offset_frames
}

/// Frame at which clip `i` ends.
pub open spec fn end_of(clips: Seq<Clip>, i: int) -> int {
    start_of(clips, i) + clips[i].duration_frames
}

/// Every frame number on the track fits in a `u32`.
pub open spec fn track_fits(clips: Seq<Clip>) -> bool {
    end_at(clips, clips.len() as int) <= u32::MAX
}

pub open spec fn timeline_fits(t: Timeline) -> bool {
    forall|k: int| 0 <= k < t.tracks@.len() ==> #[trigger] track_fits(t.tracks@[k].clips@)
}

/// The clip with its selection flag set to `b`.
pub open spec fn with_selected(c: Clip, b: bool) -> Clip {
    Clip { is_selected: b, ..c }
}

/// The clip with its layout offset cleared: what it is, apart from where it sits.
pub open spec fn placed(c: Clip) -> Clip {
    Clip { offset_frames: 0, ..c }
}

/// The track as a list of (start frame, clip) pairs, in track order.
pub open spec fn placements(clips: Seq<Clip>) -> Seq<(int, Clip)> {
    Seq::new(clips.len(), |i: int| (start_of(clips, i), placed(clips[i])))
}

/// Number of clips that start before `pos` among the first `i`.
pub open spec fn count_before(clips: Seq<Clip>, pos: int, i: int) -> int
    decreases i,
{
    if i <= 0 {
        0
    } else {
        count_before(clips, pos, i - 1) + if start_of(clips, i - 1) < pos {
            1int
        } else {
            0int
        }
    }
}

/// The index at which a clip starting at `pos` goes: after every clip that starts before it.
pub open spec fn insert_index(clips: Seq<Clip>, pos: int) -> int {
    count_before(clips, pos, clips.len() as int)
}

pub proof fn lemma_end_at_monotonic(clips: Seq<Clip>, i: int, j: int)
    requires
        i <= j,
    ensures
        end_at(clips, i) <= end_at(clips, j),
    decreases j - i,
{
    if i < j {
        lemma_end_at_monotonic(clips, i, j - 1);
    }
}

/// Two tracks whose first `i` clips have the same offsets and durations end those clips at the same frame.
pub proof fn lemma_end_at_same_prefix(a: Seq<Clip>, b: Seq<Clip>, i: int)
    requires
        i <= a.len(),
        i <= b.len(),
        forall|j: int|
            0 <= j < i ==> a[j].offset_frames == b[j].offset_frames && a[j].duration_frames
                == b[j].duration_frames,
    ensures
        end_at(a, i) == end_at(b, i),
    decreases i,
{
    if i > 0 {
        lemma_end_at_same_prefix(a, b, i - 1);
    }
}

/// Clips on a track follow one another: an earlier clip ends no later than a later one starts.
pub proof fn lemma_clips_ordered(clips: Seq<Clip>, i: int, j: int)
    requires
        0 <= i < j < clips.len(),
    ensures
        end_of(clips, i) <= start_of(clips, j),
        start_of(clips, i) <= start_of(clips, j),
        end_of(clips, j) <= end_at(clips, clips.len() as int),
{
    lemma_end_at_monotonic(clips, i + 1, j);
    lemma_end_at_monotonic(clips, j + 1, clips.len() as int);
}

/// Every clip of a track ends no later than the track.
pub proof fn lemma_clip_in_track(clips: Seq<Clip>, i: int)
    requires
        0 <= i < clips.len(),
    ensures
        start_of(clips, i) <= end_of(clips, i) <= end_at(clips, clips.len() as int),
        0 <= end_at(clips, i),
{
    lemma_end_at_monotonic(clips, i + 1, clips.len() as int);
    lemma_end_at_monotonic(clips, 0, i);
}

/// Frame of keyframe `i` of an animation curve that starts at `off`: keyframe 0 is the start,
/// keyframe `i + 1` is the end of segment `i`.
pub open spec fn key_time(off: int, segs: Seq<CurveSegment>, i: int) -> int
    decreases i,
{
    if i <= 0 {
        off
    } else {
        key_time(off, segs, i - 1) + segs[i - 1].duration_frames
    }
}

/// The keyframes of a curve as (frame, value) pairs in time order.
pub open spec fn keyframes(f: AnimatedPropertyField) -> Seq<(int, PropertyValue)> {
    Seq::new(
        f.segments@.len() + 1,
        |i: int|
            (
                key_time(f.local_offset_frames as int, f.segments@, i),
                if i == 0 {
                    f.start_value
                } else {
                    f.segments@[i - 1].end_value
                },
            ),
    )
}

/// How each segment of a curve eases between its two keyframes.
pub open spec fn interpolations(f: AnimatedPropertyField) -> Seq<CurveInterpolation> {
    f.segments@.map_values(|s: CurveSegment| s.interpolation)
}

/// Every keyframe frame, and every segment length, fits in an `i32`.
pub open spec fn field_fits(f: AnimatedPropertyField) -> bool {
    &&& forall|i: int|
        0 <= i < f.segments@.len() ==> #[trigger] f.segments@[i].duration_frames <= i32::MAX
    &&& key_time(f.local_offset_frames as int, f.segments@, f.segments@.len() as int) <= i32::MAX
}

pub proof fn lemma_key_time_monotonic(off: int, segs: Seq<CurveSegment>, i: int, j: int)
    requires
        i <= j,
    ensures
        key_time(off, segs, i) <= key_time(off, segs, j),
    decreases j - i,
{
    if i < j {
        lemma_key_time_monotonic(off, segs, i, j - 1);
    }
}

pub proof fn lemma_key_time_same_prefix(off: int, a: Seq<CurveSegment>, b: Seq<CurveSegment>, i: int)
    requires
        i <= a.len(),
        i <= b.len(),
        forall|j: int| 0 <= j < i ==> a[j].duration_frames == b[j].duration_frames,
    ensures
        key_time(off, a, i) == key_time(off, b, i),
    decreases i,
{
    if i > 0 {
        lemma_key_time_same_prefix(off, a, b, i - 1);
    }
}

/// Number of keyframes, among the first `n`, that lie before frame `pos`.
pub open spec fn keys_before(ks: Seq<(int, PropertyValue)>, pos: int, n: int) -> int
    decreases n,
{
    if n <= 0 {
        0
    } else {
        keys_before(ks, pos, n - 1) + if ks[n - 1].0 < pos {
            1int
        } else {
            0int
        }
    }
}

/// Key times when a segment of `d` frames is put in at index `k`, taken out of the segment it
/// is put in front of (if any).
pub proof fn lemma_key_time_split(
    off: int,
    old_segs: Seq<CurveSegment>,
    new_segs: Seq<CurveSegment>,
    k: int,
    d: int,
)
    requires
        0 <= k <= old_segs.len(),
        new_segs.len() == old_segs.len() + 1,
        forall|j: int| 0 <= j < k ==> new_segs[j] == old_segs[j],
        forall|j: int| k + 1 < j < new_segs.len() ==> #[trigger] new_segs[j] == old_segs[j - 1],
        new_segs[k].duration_frames == d,
        k < old_segs.len() ==> new_segs[k + 1].duration_frames + d == old_segs[k].duration_frames,
    ensures
        forall|j: int| 0 <= j <= k ==> #[trigger] key_time(off, new_segs, j) == key_time(off, old_segs, j),
        key_time(off, new_segs, k + 1) == key_time(off, old_segs, k) + d,
        forall|j: int|
            k + 1 < j <= new_segs.len() ==> #[trigger] key_time(off, new_segs, j) == key_time(
                off,
                old_segs,
                j - 1,
            ),
{
    assert forall|j: int| 0 <= j <= k implies #[trigger] key_time(off, new_segs, j) == key_time(
        off,
        old_segs,
        j,
    ) by {
        lemma_key_time_same_prefix(off, new_segs, old_segs, j);
    }
    lemma_key_time_same_prefix(off, new_segs, old_segs, k);
    assert(key_time(off, new_segs, k + 1) == key_time(off, new_segs, k) + new_segs[k].duration_frames);
    assert forall|j: int| k + 1 < j <= new_segs.len() implies #[trigger] key_time(off, new_segs, j)
        == key_time(off, old_segs, j - 1) by {
        lemma_key_time_split_tail(off, old_segs, new_segs, k, d, j);
    }
}

proof fn lemma_key_time_split_tail(
    off: int,
    old_segs: Seq<CurveSegment>,
    new_segs: Seq<CurveSegment>,
    k: int,
    d: int,
    j: int,
)
    requires
        0 <= k <= old_segs.len(),
        new_segs.len() == old_segs.len() + 1,
        forall|i: int| 0 <= i < k ==> new_segs[i] == old_segs[i],
        forall|i: int| k + 1 < i < new_segs.len() ==> #[trigger] new_segs[i] == old_segs[i - 1],
        new_segs[k].duration_frames == d,
        k < old_segs.len() ==> new_segs[k + 1].duration_frames + d == old_segs[k].duration_frames,
        k + 1 < j <= new_segs.len(),
    ensures
        key_time(off, new_segs, j) == key_time(off, old_segs, j - 1),
    decreases j,
{
    lemma_key_time_same_prefix(off, new_segs, old_segs, k);
    assert(key_time(off, new_segs, k + 1) == key_time(off, new_segs, k) + new_segs[k].duration_frames);
    if j > k + 2 {
        lemma_key_time_split_tail(off, old_segs, new_segs, k, d, j - 1);
        assert(key_time(off, new_segs, j) == key_time(off, new_segs, j - 1) + new_segs[j - 1].duration_frames);
        assert(key_time(off, old_segs, j - 1) == key_time(off, old_segs, j - 2) + old_segs[j - 2].duration_frames);
    } else {
        assert(key_time(off, new_segs, k + 2) == key_time(off, new_segs, k + 1) + new_segs[k + 1].duration_frames);
        assert(key_time(off, old_segs, k + 1) == key_time(off, old_segs, k) + old_segs[k].duration_frames);
    }
}

/// Key times when segment `k` is taken out and its length given to the segment after it.
pub proof fn lemma_key_time_merge(
    off: int,
    old_segs: Seq<CurveSegment>,
    new_segs: Seq<CurveSegment>,
    k: int,
)
    requires
        0 <= k < old_segs.len(),
        new_segs.len() == old_segs.len() - 1,
        forall|j: int| 0 <= j < k ==> new_segs[j] == old_segs[j],
        forall|j: int| k < j < new_segs.len() ==> #[trigger] new_segs[j] == old_segs[j + 1],
        k < new_segs.len() ==> new_segs[k].duration_frames == old_segs[k].duration_frames
            + old_segs[k + 1].duration_frames,
    ensures
        forall|j: int| 0 <= j <= k ==> #[trigger] key_time(off, new_segs, j) == key_time(off, old_segs, j),
        forall|j: int|
            k < j <= new_segs.len() ==> #[trigger] key_time(off, new_segs, j) == key_time(
                off,
                old_segs,
                j + 1,
            ),
{
    assert forall|j: int| 0 <= j <= k implies #[trigger] key_time(off, new_segs, j) == key_time(
        off,
        old_segs,
        j,
    ) by {
        lemma_key_time_same_prefix(off, new_segs, old_segs, j);
    }
    assert forall|j: int| k < j <= new_segs.len() implies #[trigger] key_time(off, new_segs, j)
        == key_time(off, old_segs, j + 1) by {
        lemma_key_time_merge_tail(off, old_segs, new_segs, k, j);
    }
}

proof fn lemma_key_time_merge_tail(
    off: int,
    old_segs: Seq<CurveSegment>,
    new_segs: Seq<CurveSegment>,
    k: int,
    j: int,
)
    requires
        0 <= k < old_segs.len(),
        new_segs.len() == old_segs.len() - 1,
        forall|i: int| 0 <= i < k ==> new_segs[i] == old_segs[i],
        forall|i: int| k < i < new_segs.len() ==> #[trigger] new_segs[i] == old_segs[i + 1],
        k < new_segs.len() ==> new_segs[k].duration_frames == old_segs[k].duration_frames
            + old_segs[k + 1].duration_frames,
        k < j <= new_segs.len(),
    ensures
        key_time(off, new_segs, j) == key_time(off, old_segs, j + 1),
    decreases j,
{
    lemma_key_time_same_prefix(off, new_segs, old_segs, k);
    if j > k + 1 {
        lemma_key_time_merge_tail(off, old_segs, new_segs, k, j - 1);
        assert(key_time(off, new_segs, j) == key_time(off, new_segs, j - 1) + new_segs[j - 1].duration_frames);
        assert(key_time(off, old_segs, j + 1) == key_time(off, old_segs, j) + old_segs[j].duration_frames);
    } else {
        assert(key_time(off, new_segs, k + 1) == key_time(off, new_segs, k) + new_segs[k].duration_frames);
        assert(key_time(off, old_segs, k + 1) == key_time(off, old_segs, k) + old_segs[k].duration_frames);
        assert(key_time(off, old_segs, k + 2) == key_time(off, old_segs, k + 1) + old_segs[k + 1].duration_frames);
    }
}

/// Key times when the curve gains a first segment of `d` frames and starts `d` frames earlier.
pub proof fn lemma_key_time_shift(off: int, old_segs: Seq<CurveSegment>, new_segs: Seq<CurveSegment>, d: int, j: int)
    requires
        new_segs.len() == old_segs.len() + 1,
        new_segs[0].duration_frames == d,
        forall|i: int| 0 < i < new_segs.len() ==> #[trigger] new_segs[i] == old_segs[i - 1],
        0 <= j <= old_segs.len(),
    ensures
        key_time(off - d, new_segs, j + 1) == key_time(off, old_segs, j),
    decreases j,
{
    assert(key_time(off - d, new_segs, 1) == key_time(off - d, new_segs, 0) + new_segs[0].duration_frames);
    if j > 0 {
        lemma_key_time_shift(off, old_segs, new_segs, d, j - 1);
        assert(key_time(off - d, new_segs, j + 1) == key_time(off - d, new_segs, j) + new_segs[j].duration_frames);
        assert(key_time(off, old_segs, j) == key_time(off, old_segs, j - 1) + old_segs[j - 1].duration_frames);
    }
}

/// Two tracks whose clips take up the same frames each (offset plus duration) end each prefix
/// at the same frame.
pub proof fn lemma_end_at_same_extent(a: Seq<Clip>, b: Seq<Clip>, i: int)
    requires
        i <= a.len(),
        i <= b.len(),
        forall|j: int|
            0 <= j < i ==> #[trigger] a[j].offset_frames + a[j].duration_frames == b[j].offset_frames
                + b[j].duration_frames,
    ensures
        end_at(a, i) == end_at(b, i),
    decreases i,
{
    if i > 0 {
        lemma_end_at_same_extent(a, b, i - 1);
    }
}

/// `b` is `a` with its local offset moved back by `delta` frames.
pub open spec fn field_shifted(a: AnimatedPropertyField, b: AnimatedPropertyField, delta: int) -> bool {
    &&& b.local_offset_frames == a.local_offset_frames - delta
    &&& b.start_value == a.start_value
    &&& b.segments@ == a.segments@
}

pub open spec fn target_shifted(a: AnimatedPropertyTarget, b: AnimatedPropertyTarget, delta: int) -> bool {
    match (a, b) {
        (AnimatedPropertyTarget::Joined(fa), AnimatedPropertyTarget::Joined(fb)) => field_shifted(fa, fb, delta),
        (AnimatedPropertyTarget::Separate(va), AnimatedPropertyTarget::Separate(vb)) => {
            &&& va@.len() == vb@.len()
            &&& forall|i: int| 0 <= i < va@.len() ==> #[trigger] field_shifted(va@[i], vb@[i], delta)
        },
        _ => false,
    }
}

/// `b` is the animated property `a` with its curves moved back by `delta` frames.
pub open spec fn property_shifted(a: AnimatedProperty, b: AnimatedProperty, delta: int) -> bool {
    &&& b.group_index == a.group_index
    &&& b.property_index == a.property_index
    &&& b.is_collapsed == a.is_collapsed
    &&& target_shifted(a.target, b.target, delta)
}

/// `b` is `a` with every animation curve moved back by `delta` frames.
pub open spec fn source_shifted(a: ClipSource, b: ClipSource, delta: int) -> bool {
    match (a, b) {
        (ClipSource::Generator, ClipSource::Generator) => true,
        (ClipSource::Animation(x), ClipSource::Animation(y)) => {
            &&& x.target_clip == y.target_clip
            &&& x.properties@.len() == y.properties@.len()
            &&& forall|i: int|
                0 <= i < x.properties@.len() ==> #[trigger] property_shifted(
                    x.properties@[i],
                    y.properties@[i],
                    delta,
                )
        },
        _ => false,
    }
}

/// Every curve local offset of the clip, moved back by `delta`, still fits in an `i32`.
pub open spec fn field_shift_fits(f: AnimatedPropertyField, delta: int) -> bool {
    i32::MIN <= f.local_offset_frames - delta <= i32::MAX
}

pub open spec fn source_shift_fits(src: ClipSource, delta: int) -> bool {
    match src {
        ClipSource::Generator => true,
        ClipSource::Animation(a) => forall|i: int|
            0 <= i < a.properties@.len() ==> match #[trigger] a.properties@[i].target {
                AnimatedPropertyTarget::Joined(f) => field_shift_fits(f, delta),
                AnimatedPropertyTarget::Separate(v) => forall|j: int|
                    0 <= j < v@.len() ==> #[trigger] field_shift_fits(v@[j], delta),
            },
    }
}

/// A track is determined by its placements.
pub proof fn lemma_placements_injective(a: Seq<Clip>, b: Seq<Clip>)
    requires
        placements(a) == placements(b),
    ensures
        a == b,
{
    assert(a.len() == placements(a).len());
    assert(b.len() == placements(b).len());
    assert forall|i: int| 0 <= i < a.len() implies a[i] == b[i] by {
        lemma_placements_prefix_equal(a, b, i + 1);
    }
    assert(a =~= b);
}

proof fn lemma_placements_prefix_equal(a: Seq<Clip>, b: Seq<Clip>, n: int)
    requires
        placements(a) == placements(b),
        0 <= n <= a.len(),
    ensures
        forall|i: int| 0 <= i < n ==> a[i] == b[i],
        end_at(a, n) == end_at(b, n),
    decreases n,
{
    assert(a.len() == placements(a).len());
    assert(b.len() == placements(b).len());
    if n > 0 {
        lemma_placements_prefix_equal(a, b, n - 1);
        let i = n - 1;
        assert(placements(a)[i] == placements(b)[i]);
        assert(a[i] == b[i]);
    }
}

} // verus!
