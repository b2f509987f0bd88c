//! The editor's project file: the timeline as it is saved, with generator schemas, their groups
//! and their properties named rather than numbered, and how a saved timeline is read back.
use vstd::prelude::*;
use crate::deserializer::timeline::{
    clip_model, field_model, property_model, target_model, ClipModel, FieldModel, PropertyModel,
    SourceModel, TargetModel,
};
use crate::timeline::{
    AnimatedProperty, AnimatedPropertyField, AnimatedPropertyTarget, AnimationClip, Clip, ClipSource,
    CurveSegment, PropertyDefault, PropertyGroup, PropertyValue, Timeline, Track,
};

verus! {

/// A property of a generator schema as the editor knows it: the name it is saved under, and the
/// default that a new clip of the schema starts with.
pub struct NamedProperty {
    pub name: String,
    pub default: PropertyDefault,
}

/// A group of properties of a generator schema, with the name it is saved under.
pub struct NamedGroup {
    pub name: String,
    pub properties: Vec<NamedProperty>,
}

/// A generator schema as the editor knows it: its name and its named groups of properties.
pub struct NamedSchema {
    pub name: String,
    pub groups: Vec<NamedGroup>,
}

/// A property default as saved, under its property's name.
pub struct SavedPropertyDefault {
    pub name: String,
    pub value: PropertyValue,
    pub is_override: bool,
}

/// A group of property defaults as saved, under the group's name.
pub struct SavedPropertyGroup {
    pub name: String,
    pub defaults: Vec<SavedPropertyDefault>,
}

/// An animated property as saved: the names of its group and property, and its curves.
pub struct SavedAnimatedProperty {
    pub group_name: String,
    pub property_name: String,
    pub target: AnimatedPropertyTarget,
}

/// An animation clip as saved.
pub struct SavedAnimationClip {
    pub target_clip: u32,
    pub properties: Vec<SavedAnimatedProperty>,
}

/// A clip as saved: its schema by name, its animation if it is an animation clip, and its
/// property defaults by group (a generator clip's).
pub struct SavedClip {
    pub id: u32,
    pub name: String,
    pub schema: String,
    pub animation: Option<SavedAnimationClip>,
    pub offset_frames: u32,
    pub duration_frames: u32,
    pub property_groups: Vec<SavedPropertyGroup>,
}

pub struct SavedTrack {
    pub clips: Vec<SavedClip>,
}

/// A timeline as the project file holds it.
pub struct SavedTimeline {
    pub tracks: Vec<SavedTrack>,
}

/// Position of the first of `names` equal to `name`.
pub open spec fn first_named(names: Seq<Seq<char>>, name: Seq<char>) -> Option<int>
    decreases names.len(),
{
    if names.len() == 0 {
        None
    } else {
        match first_named(names.drop_last(), name) {
            Some(i) => Some(i),
            None => if names.last() == name {
                Some(names.len() - 1)
            } else {
                None
            },
        }
    }
}

/// Position of the last of `names` equal to `name`.
pub open spec fn last_named(names: Seq<Seq<char>>, name: Seq<char>) -> Option<int>
    decreases names.len(),
{
    if names.len() == 0 {
        None
    } else if names.last() == name {
        Some(names.len() - 1)
    } else {
        last_named(names.drop_last(), name)
    }
}

pub open spec fn schema_names(ss: Seq<NamedSchema>) -> Seq<Seq<char>> {
    ss.map_values(|s: NamedSchema| s.name@)
}

pub open spec fn group_names(gs: Seq<NamedGroup>) -> Seq<Seq<char>> {
    gs.map_values(|g: NamedGroup| g.name@)
}

pub open spec fn property_names(ps: Seq<NamedProperty>) -> Seq<Seq<char>> {
    ps.map_values(|p: NamedProperty| p.name@)
}

pub open spec fn saved_group_names(gs: Seq<SavedPropertyGroup>) -> Seq<Seq<char>> {
    gs.map_values(|g: SavedPropertyGroup| g.name@)
}

pub open spec fn saved_default_names(ds: Seq<SavedPropertyDefault>) -> Seq<Seq<char>> {
    ds.map_values(|d: SavedPropertyDefault| d.name@)
}

/// A result of `first_named` on the first `n` names holds on all of them.
proof fn lemma_first_named_prefix(names: Seq<Seq<char>>, name: Seq<char>, n: int)
    requires
        0 <= n <= names.len(),
        first_named(names.take(n), name) is Some,
    ensures
        first_named(names, name) == first_named(names.take(n), name),
    decreases names.len() - n,
{
    if n < names.len() {
        assert(names.drop_last().take(n) =~= names.take(n));
        lemma_first_named_prefix(names.drop_last(), name, n);
    } else {
        assert(names.take(n) =~= names);
    }
}

/// `first_named` finds the first position holding `name`, if any.
proof fn lemma_first_named(names: Seq<Seq<char>>, name: Seq<char>)
    ensures
        first_named(names, name) matches Some(i) ==> 0 <= i < names.len() && names[i] == name && forall|j: int|
            0 <= j < i ==> names[j] != name,
        first_named(names, name) is None ==> forall|j: int| 0 <= j < names.len() ==> names[j] != name,
    decreases names.len(),
{
    if names.len() > 0 {
        lemma_first_named(names.drop_last(), name);
        assert forall|j: int| 0 <= j < names.len() - 1 implies names.drop_last()[j] == names[j] by {}
    }
}

/// `last_named` finds the last position holding `name`, if any.
proof fn lemma_last_named(names: Seq<Seq<char>>, name: Seq<char>)
    ensures
        last_named(names, name) matches Some(i) ==> 0 <= i < names.len() && names[i] == name && forall|j: int|
            i < j < names.len() ==> names[j] != name,
        last_named(names, name) is None ==> forall|j: int| 0 <= j < names.len() ==> names[j] != name,
    decreases names.len(),
{
    if names.len() > 0 {
        lemma_last_named(names.drop_last(), name);
        assert forall|j: int| 0 <= j < names.len() - 1 implies names.drop_last()[j] == names[j] by {}
    }
}

/// Among names that are all distinct, a name is found at its own position, first or last.
pub proof fn lemma_distinct_named(names: Seq<Seq<char>>, i: int)
    requires
        0 <= i < names.len(),
        names.no_duplicates(),
    ensures
        first_named(names, names[i]) == Some(i),
        last_named(names, names[i]) == Some(i),
{
    lemma_first_named(names, names[i]);
    lemma_last_named(names, names[i]);
}

/// Position of the first schema named `name`.
fn find_schema(schemas: &Vec<NamedSchema>, name: &String) -> (r: Option<usize>)
    ensures
        match r {
            Some(i) => i < schemas@.len() && first_named(schema_names(schemas@), name@) == Some(i as int),
            None => first_named(schema_names(schemas@), name@) is None,
        },
{
    let ghost names = schema_names(schemas@);
    let mut i: usize = 0;
    while i < schemas.len()
        invariant
            i <= schemas@.len(),
            names == schema_names(schemas@),
            first_named(names.take(i as int), name@) is None,
        decreases schemas@.len() - i,
    {
        if schemas[i].name == *name {
            proof {
                assert(names.take(i + 1).drop_last() =~= names.take(i as int));
                assert(first_named(names.take(i + 1), name@) == Some(i as int));
                lemma_first_named_prefix(names, name@, i + 1);
            }
            return Some(i);
        }
        proof {
            assert(names.take(i + 1).drop_last() =~= names.take(i as int));
        }
        i = i + 1;
    }
    proof {
        assert(names.take(i as int) =~= names);
    }
    None
}

/// Position of the first group of `groups` named `name`.
fn find_group(groups: &Vec<NamedGroup>, name: &String) -> (r: Option<usize>)
    ensures
        match r {
            Some(i) => i < groups@.len() && first_named(group_names(groups@), name@) == Some(i as int),
            None => first_named(group_names(groups@), name@) is None,
        },
{
    let ghost names = group_names(groups@);
    let mut i: usize = 0;
    while i < groups.len()
        invariant
            i <= groups@.len(),
            names == group_names(groups@),
            first_named(names.take(i as int), name@) is None,
        decreases groups@.len() - i,
    {
        if groups[i].name == *name {
            proof {
                assert(names.take(i + 1).drop_last() =~= names.take(i as int));
                assert(first_named(names.take(i + 1), name@) == Some(i as int));
                lemma_first_named_prefix(names, name@, i + 1);
            }
            return Some(i);
        }
        proof {
            assert(names.take(i + 1).drop_last() =~= names.take(i as int));
        }
        i = i + 1;
    }
    proof {
        assert(names.take(i as int) =~= names);
    }
    None
}

/// Position of the first property of `properties` named `name`.
fn find_property(properties: &Vec<NamedProperty>, name: &String) -> (r: Option<usize>)
    ensures
        match r {
            Some(i) => i < properties@.len() && first_named(property_names(properties@), name@) == Some(i as int),
            None => first_named(property_names(properties@), name@) is None,
        },
{
    let ghost names = property_names(properties@);
    let mut i: usize = 0;
    while i < properties.len()
        invariant
            i <= properties@.len(),
            names == property_names(properties@),
            first_named(names.take(i as int), name@) is None,
        decreases properties@.len() - i,
    {
        if properties[i].name == *name {
            proof {
                assert(names.take(i + 1).drop_last() =~= names.take(i as int));
                assert(first_named(names.take(i + 1), name@) == Some(i as int));
                lemma_first_named_prefix(names, name@, i + 1);
            }
            return Some(i);
        }
        proof {
            assert(names.take(i + 1).drop_last() =~= names.take(i as int));
        }
        i = i + 1;
    }
    proof {
        assert(names.take(i as int) =~= names);
    }
    None
}

/// Position of the last saved group named `name`.
fn find_saved_group(groups: &Vec<SavedPropertyGroup>, name: &String) -> (r: Option<usize>)
    ensures
        match r {
            Some(i) => i < groups@.len() && last_named(saved_group_names(groups@), name@) == Some(i as int),
            None => last_named(saved_group_names(groups@), name@) is None,
        },
{
    let ghost names = saved_group_names(groups@);
    let mut i: usize = groups.len();
    proof {
        assert(names.take(i as int) =~= names);
    }
    while i > 0
        invariant
            i <= groups@.len(),
            names == saved_group_names(groups@),
            last_named(names.take(i as int), name@) == last_named(names, name@),
        decreases i,
    {
        proof {
            assert(names.take(i as int).drop_last() =~= names.take(i - 1));
        }
        if groups[i - 1].name == *name {
            return Some(i - 1);
        }
        i = i - 1;
    }
    None
}

/// Position of the last saved default named `name`.
fn find_saved_default(defaults: &Vec<SavedPropertyDefault>, name: &String) -> (r: Option<usize>)
    ensures
        match r {
            Some(i) => i < defaults@.len() && last_named(saved_default_names(defaults@), name@) == Some(i as int),
            None => last_named(saved_default_names(defaults@), name@) is None,
        },
{
    let ghost names = saved_default_names(defaults@);
    let mut i: usize = defaults.len();
    proof {
        assert(names.take(i as int) =~= names);
    }
    while i > 0
        invariant
            i <= defaults@.len(),
            names == saved_default_names(defaults@),
            last_named(names.take(i as int), name@) == last_named(names, name@),
        decreases i,
    {
        proof {
            assert(names.take(i as int).drop_last() =~= names.take(i - 1));
        }
        if defaults[i - 1].name == *name {
            return Some(i - 1);
        }
        i = i - 1;
    }
    None
}

/// A copy of an animation curve.
fn copy_field(f: &AnimatedPropertyField) -> (r: AnimatedPropertyField)
    ensures
        field_model(r) == field_model(*f),
{
    let mut segments: Vec<CurveSegment> = Vec::new();
    let mut i: usize = 0;
    while i < f.segments.len()
        invariant
            i <= f.segments@.len(),
            segments@ == f.segments@.take(i as int),
        decreases f.segments@.len() - i,
    {
        segments.push(f.segments[i]);
        i = i + 1;
        proof {
            assert(segments@ =~= f.segments@.take(i as int));
        }
    }
    proof {
        assert(segments@ =~= f.segments@);
    }
    AnimatedPropertyField { local_offset_frames: f.local_offset_frames, start_value: f.start_value, segments }
}

/// A copy of the curves of an animated property.
fn copy_target(t: &AnimatedPropertyTarget) -> (r: AnimatedPropertyTarget)
    ensures
        target_model(r) == target_model(*t),
{
    match t {
        AnimatedPropertyTarget::Joined(f) => AnimatedPropertyTarget::Joined(copy_field(f)),
        AnimatedPropertyTarget::Separate(fs) => {
            let mut fields: Vec<AnimatedPropertyField> = Vec::new();
            let mut i: usize = 0;
            while i < fs.len()
                invariant
                    i <= fs@.len(),
                    fields@.len() == i,
                    forall|k: int| 0 <= k < i ==> field_model(#[trigger] fields@[k]) == field_model(fs@[k]),
                decreases fs@.len() - i,
            {
                let c = copy_field(&fs[i]);
                fields.push(c);
                i = i + 1;
            }
            proof {
                assert(fields@.map_values(|f: AnimatedPropertyField| field_model(f)) =~= fs@.map_values(
                    |f: AnimatedPropertyField| field_model(f),
                ));
            }
            AnimatedPropertyTarget::Separate(fields)
        },
    }
}

/// The default of schema property `prop` when a clip is read back, given the saved group of
/// its group's name, if any: the saved default of the property's name (the last, if several),
/// else the schema's own default.
pub open spec fn loaded_default(prop: NamedProperty, saved: Option<SavedPropertyGroup>) -> PropertyDefault {
    match saved {
        Some(sg) => match last_named(saved_default_names(sg.defaults@), prop.name@) {
            Some(d) => PropertyDefault { value: sg.defaults@[d].value, is_override: sg.defaults@[d].is_override },
            None => prop.default,
        },
        None => prop.default,
    }
}

/// The defaults of schema group `g` when a clip is read back (see `loaded_default`).
pub open spec fn loaded_defaults(g: NamedGroup, saved: Option<SavedPropertyGroup>) -> Seq<PropertyDefault> {
    Seq::new(g.properties@.len(), |p: int| loaded_default(g.properties@[p], saved))
}

/// The saved group, among `saved`, that schema group `g` is read from: the last of its name.
pub open spec fn saved_group_for(g: NamedGroup, saved: Seq<SavedPropertyGroup>) -> Option<SavedPropertyGroup> {
    match last_named(saved_group_names(saved), g.name@) {
        Some(i) => Some(saved[i]),
        None => None,
    }
}

/// The property defaults, group by group of schema `s`, of a generator clip read back from its
/// saved groups.
pub open spec fn loaded_groups(s: NamedSchema, saved: Seq<SavedPropertyGroup>) -> Seq<Seq<PropertyDefault>> {
    Seq::new(s.groups@.len(), |g: int| loaded_defaults(s.groups@[g], saved_group_for(s.groups@[g], saved)))
}

/// An animated property read back for schema `s`: its group is the first of the saved group
/// name, its property the first of the saved property name in that group; `None` (the property
/// is dropped) when either is missing.
pub open spec fn loaded_property(p: SavedAnimatedProperty, s: NamedSchema) -> Option<PropertyModel> {
    match first_named(group_names(s.groups@), p.group_name@) {
        None => None,
        Some(g) => match first_named(property_names(s.groups@[g].properties@), p.property_name@) {
            None => None,
            Some(q) => Some(
                PropertyModel {
                    group_index: g as usize,
                    property_index: q as usize,
                    target: target_model(p.target),
                    is_collapsed: false,
                },
            ),
        },
    }
}

/// The animated properties read back for schema `s`, in order, leaving out those dropped.
pub open spec fn loaded_properties(ps: Seq<SavedAnimatedProperty>, s: NamedSchema) -> Seq<PropertyModel>
    decreases ps.len(),
{
    if ps.len() == 0 {
        Seq::empty()
    } else {
        let rest = loaded_properties(ps.drop_last(), s);
        match loaded_property(ps.last(), s) {
            Some(m) => rest.push(m),
            None => rest,
        }
    }
}

/// A clip read back: its schema is the first of the saved schema name (`None`, the clip is
/// dropped, when there is none); an animation clip keeps the properties that its schema still
/// has, a generator clip takes its defaults from its saved groups; no clip is read back
/// selected.
pub open spec fn loaded_clip(c: SavedClip, ss: Seq<NamedSchema>) -> Option<ClipModel> {
    match first_named(schema_names(ss), c.schema@) {
        None => None,
        Some(si) => Some(
            ClipModel {
                id: c.id,
                name: c.name@,
                schema: si as usize,
                source: match c.animation {
                    Some(a) => SourceModel::Animation(a.target_clip, loaded_properties(a.properties@, ss[si])),
                    None => SourceModel::Generator,
                },
                offset_frames: c.offset_frames,
                duration_frames: c.duration_frames,
                property_groups: match c.animation {
                    Some(_) => Seq::empty(),
                    None => loaded_groups(ss[si], c.property_groups@),
                },
                is_selected: false,
            },
        ),
    }
}

/// The first `n` clips of a saved track read back, with the frames of the dropped clips since
/// the last kept one (which the next kept clip's offset takes up, so that it keeps its start
/// frame); `None` when such a frame count does not fit a `u32`.
pub open spec fn loaded_track(cs: Seq<SavedClip>, ss: Seq<NamedSchema>, n: int) -> Option<(Seq<ClipModel>, u32)>
    decreases n,
{
    if n <= 0 {
        Some((Seq::empty(), 0u32))
    } else {
        match loaded_track(cs, ss, n - 1) {
            None => None,
            Some((clips, carry)) => {
                let c = cs[n - 1];
                match loaded_clip(c, ss) {
                    Some(m) => if m.offset_frames + carry <= u32::MAX {
                        Some((clips.push(ClipModel { offset_frames: (m.offset_frames + carry) as u32, ..m }), 0u32))
                    } else {
                        None
                    },
                    None => if c.offset_frames + c.duration_frames <= u32::MAX && carry + c.offset_frames
                        + c.duration_frames <= u32::MAX {
                        Some((clips, (carry + c.offset_frames + c.duration_frames) as u32))
                    } else {
                        None
                    },
                }
            },
        }
    }
}

/// Where the first `n` clips of a saved track end: their offsets and durations added up.
pub open spec fn saved_end(cs: Seq<SavedClip>, n: int) -> int
    decreases n,
{
    if n <= 0 {
        0
    } else {
        saved_end(cs, n - 1) + cs[n - 1].offset_frames + cs[n - 1].duration_frames
    }
}

/// Where the first `n` clips of a loaded track end.
pub open spec fn model_end(ms: Seq<ClipModel>, n: int) -> int
    decreases n,
{
    if n <= 0 {
        0
    } else {
        model_end(ms, n - 1) + ms[n - 1].offset_frames + ms[n - 1].duration_frames
    }
}

/// Where the first `n` clips end depends on those clips only.
proof fn lemma_model_end_push(ms: Seq<ClipModel>, x: ClipModel, n: int)
    requires
        0 <= n <= ms.len(),
    ensures
        model_end(ms.push(x), n) == model_end(ms, n),
    decreases n,
{
    if n > 0 {
        lemma_model_end_push(ms, x, n - 1);
        assert(ms.push(x)[n - 1] == ms[n - 1]);
    }
}

/// `loaded_track`, seen only through the step lemma below.
#[verifier::opaque]
spec fn load_state(cs: Seq<SavedClip>, ss: Seq<NamedSchema>, n: int) -> Option<(Seq<ClipModel>, u32)> {
    loaded_track(cs, ss, n)
}

/// Whether a saved clip is kept on loading, seen only through the step lemma below.
#[verifier::opaque]
spec fn kept(c: SavedClip, ss: Seq<NamedSchema>) -> bool {
    loaded_clip(c, ss) is Some
}

/// One step of loading a track: clip `n - 1` is either kept, pushed with its id and duration
/// and with the carried frames added to its offset, or dropped, its frames carried on.
proof fn lemma_loaded_track_step(cs: Seq<SavedClip>, ss: Seq<NamedSchema>, n: int)
    requires
        0 < n <= cs.len(),
        load_state(cs, ss, n) is Some,
    ensures
        load_state(cs, ss, n - 1) is Some,
        ({
            let (ms, carry) = load_state(cs, ss, n - 1).unwrap();
            let (ms2, carry2) = load_state(cs, ss, n).unwrap();
            let c = cs[n - 1];
            if kept(c, ss) {
                &&& ms2.len() == ms.len() + 1
                &&& ms2.take(ms.len() as int) == ms
                &&& ms2.last().id == c.id
                &&& ms2.last().duration_frames == c.duration_frames
                &&& ms2.last().offset_frames == c.offset_frames + carry
                &&& carry2 == 0
            } else {
                &&& ms2 == ms
                &&& carry2 == carry + c.offset_frames + c.duration_frames
            }
        }),
{
    reveal(load_state);
    reveal(kept);
    lemma_loaded_track_prefix(cs, ss, n - 1, n);
    let (ms, carry) = loaded_track(cs, ss, n - 1).unwrap();
    if let Some(m) = loaded_clip(cs[n - 1], ss) {
        let x = ClipModel { offset_frames: (m.offset_frames + carry) as u32, ..m };
        assert(loaded_track(cs, ss, n).unwrap().0 == ms.push(x));
        assert(ms.push(x).take(ms.len() as int) =~= ms);
    }
}

/// The positions of the clips among the first `n` of a saved track that loading keeps, in
/// order.
pub open spec fn kept_positions(cs: Seq<SavedClip>, ss: Seq<NamedSchema>, n: int) -> Seq<int>
    decreases n,
{
    if n <= 0 {
        Seq::empty()
    } else if loaded_clip(cs[n - 1], ss) is Some {
        kept_positions(cs, ss, n - 1).push(n - 1)
    } else {
        kept_positions(cs, ss, n - 1)
    }
}

/// `kept_positions`, over the opaque `kept`.
#[verifier::opaque]
spec fn kept_at(cs: Seq<SavedClip>, ss: Seq<NamedSchema>, n: int) -> Seq<int> {
    kept_positions(cs, ss, n)
}

proof fn lemma_kept_at_step(cs: Seq<SavedClip>, ss: Seq<NamedSchema>, n: int)
    requires
        0 < n,
    ensures
        kept_at(cs, ss, n) == if kept(cs[n - 1], ss) {
            kept_at(cs, ss, n - 1).push(n - 1)
        } else {
            kept_at(cs, ss, n - 1)
        },
{
    reveal(kept_at);
    reveal(kept);
}

/// The start frames of the kept clips, by induction over the loading steps.
proof fn lemma_load_starts(cs: Seq<SavedClip>, ss: Seq<NamedSchema>, n: int)
    requires
        0 <= n <= cs.len(),
        load_state(cs, ss, n) is Some,
    ensures
        ({
            let (ms, carry) = load_state(cs, ss, n).unwrap();
            let ks = kept_at(cs, ss, n);
            &&& model_end(ms, ms.len() as int) + carry == saved_end(cs, n)
            &&& ms.len() == ks.len()
            &&& forall|k: int|
                0 <= k < ms.len() ==> 0 <= ks[k] < n && (#[trigger] ms[k]).id == cs[ks[k]].id
                    && ms[k].duration_frames == cs[ks[k]].duration_frames && model_end(ms, k) + ms[k].offset_frames
                    == saved_end(cs, ks[k]) + cs[ks[k]].offset_frames
        }),
    decreases n,
{
    if n == 0 {
        reveal(load_state);
        reveal(kept_at);
    } else {
        lemma_loaded_track_step(cs, ss, n);
        lemma_load_starts(cs, ss, n - 1);
        lemma_kept_at_step(cs, ss, n);
        let (ms, carry) = load_state(cs, ss, n - 1).unwrap();
        let (ms2, carry2) = load_state(cs, ss, n).unwrap();
        let ks = kept_at(cs, ss, n - 1);
        let ks2 = kept_at(cs, ss, n);
        let c = cs[n - 1];
        if kept(c, ss) {
            let x = ms2.last();
            assert(ms2 == ms.push(x)) by {
                assert(ms2 =~= ms2.take(ms.len() as int).push(x));
            }
            lemma_model_end_push(ms, x, ms.len() as int);
            assert forall|k: int|
                0 <= k < ms2.len() implies 0 <= ks2[k] < n && (#[trigger] ms2[k]).id == cs[ks2[k]].id
                    && ms2[k].duration_frames == cs[ks2[k]].duration_frames && model_end(ms2, k) + ms2[k].offset_frames
                    == saved_end(cs, ks2[k]) + cs[ks2[k]].offset_frames by {
                if k < ms.len() {
                    assert(ms2[k] == ms[k]);
                    assert(ks2[k] == ks[k]);
                    lemma_model_end_push(ms, x, k);
                } else {
                    assert(ms2[k] == x);
                    assert(ks2[k] == n - 1);
                }
            }
        }
    }
}

/// Loading a track keeps every kept clip at its saved start frame, however many dropped clips
/// stand before it: the loaded clips are the kept saved clips, in order, with their ids and
/// durations, each starting where it started in the saved track; and the loaded clips together
/// with the frames still carried end where the saved clips end.
pub proof fn law_load_keeps_start_frames(cs: Seq<SavedClip>, ss: Seq<NamedSchema>, n: int)
    requires
        0 <= n <= cs.len(),
        loaded_track(cs, ss, n) is Some,
    ensures
        ({
            let (ms, carry) = loaded_track(cs, ss, n).unwrap();
            let ks = kept_positions(cs, ss, n);
            &&& model_end(ms, ms.len() as int) + carry == saved_end(cs, n)
            &&& ms.len() == ks.len()
            &&& forall|k: int|
                0 <= k < ms.len() ==> 0 <= ks[k] < n && (#[trigger] ms[k]).id == cs[ks[k]].id
                    && ms[k].duration_frames == cs[ks[k]].duration_frames && model_end(ms, k) + ms[k].offset_frames
                    == saved_end(cs, ks[k]) + cs[ks[k]].offset_frames
        }),
{
    assert(load_state(cs, ss, n) == loaded_track(cs, ss, n)) by {
        reveal(load_state);
    }
    assert(kept_at(cs, ss, n) == kept_positions(cs, ss, n)) by {
        reveal(kept_at);
    }
    lemma_load_starts(cs, ss, n);
}

/// The property group of schema group `g` read back from the saved group `which` of `saved`.
fn load_group(g: &NamedGroup, saved: &Vec<SavedPropertyGroup>, which: Option<usize>) -> (r: PropertyGroup)
    requires
        which matches Some(i) ==> i < saved@.len(),
    ensures
        r.defaults@ == loaded_defaults(
            *g,
            match which {
                Some(i) => Some(saved@[i as int]),
                None => None,
            },
        ),
{
    let ghost sg = match which {
        Some(i) => Some(saved@[i as int]),
        None => None,
    };
    let mut defaults: Vec<PropertyDefault> = Vec::new();
    let mut p: usize = 0;
    while p < g.properties.len()
        invariant
            p <= g.properties@.len(),
            which matches Some(i) ==> i < saved@.len(),
            sg == match which {
                Some(i) => Some(saved@[i as int]),
                None => None,
            },
            defaults@ == loaded_defaults(*g, sg).take(p as int),
        decreases g.properties@.len() - p,
    {
        let prop = &g.properties[p];
        let d = match which {
            Some(i) => match find_saved_default(&saved[i].defaults, &prop.name) {
                Some(k) => PropertyDefault { value: saved[i].defaults[k].value, is_override: saved[i].defaults[k].is_override },
                None => prop.default,
            },
            None => prop.default,
        };
        defaults.push(d);
        p = p + 1;
        proof {
            assert(defaults@ =~= loaded_defaults(*g, sg).take(p as int));
        }
    }
    proof {
        assert(defaults@ =~= loaded_defaults(*g, sg));
    }
    PropertyGroup { defaults }
}

/// The property groups of a generator clip of schema `s` read back from its saved groups.
fn load_groups(s: &NamedSchema, saved: &Vec<SavedPropertyGroup>) -> (r: Vec<PropertyGroup>)
    ensures
        r@.map_values(|g: PropertyGroup| g.defaults@) == loaded_groups(*s, saved@),
{
    let mut groups: Vec<PropertyGroup> = Vec::new();
    let mut g: usize = 0;
    while g < s.groups.len()
        invariant
            g <= s.groups@.len(),
            groups@.len() == g,
            forall|k: int| 0 <= k < g ==> (#[trigger] groups@[k]).defaults@ == loaded_groups(*s, saved@)[k],
        decreases s.groups@.len() - g,
    {
        let which = find_saved_group(saved, &s.groups[g].name);
        let group = load_group(&s.groups[g], saved, which);
        proof {
            assert(saved_group_for(s.groups@[g as int], saved@) == match which {
                Some(i) => Some(saved@[i as int]),
                None => None,
            });
        }
        groups.push(group);
        g = g + 1;
    }
    proof {
        assert(groups@.map_values(|g: PropertyGroup| g.defaults@) =~= loaded_groups(*s, saved@));
    }
    groups
}

/// The animated properties of an animation clip of schema `s` read back (see `loaded_properties`).
fn load_properties(ps: &Vec<SavedAnimatedProperty>, s: &NamedSchema) -> (r: Vec<AnimatedProperty>)
    ensures
        r@.map_values(|p: AnimatedProperty| property_model(p)) == loaded_properties(ps@, *s),
{
    let mut props: Vec<AnimatedProperty> = Vec::new();
    let mut i: usize = 0;
    proof {
        assert(ps@.take(0) =~= Seq::<SavedAnimatedProperty>::empty());
        assert(props@.map_values(|p: AnimatedProperty| property_model(p)) =~= Seq::<PropertyModel>::empty());
    }
    while i < ps.len()
        invariant
            i <= ps@.len(),
            props@.map_values(|p: AnimatedProperty| property_model(p)) == loaded_properties(ps@.take(i as int), *s),
        decreases ps@.len() - i,
    {
        let sp = &ps[i];
        proof {
            assert(ps@.take(i + 1).drop_last() =~= ps@.take(i as int));
            assert(ps@.take(i + 1).last() == ps@[i as int]);
        }
        match find_group(&s.groups, &sp.group_name) {
            Some(g) => match find_property(&s.groups[g].properties, &sp.property_name) {
                Some(q) => {
                    let ghost before = props@;
                    let target = copy_target(&sp.target);
                    let prop = AnimatedProperty { group_index: g, property_index: q, target, is_collapsed: false };
                    props.push(prop);
                    proof {
                        assert(props@.map_values(|p: AnimatedProperty| property_model(p)) =~= before.map_values(
                            |p: AnimatedProperty| property_model(p),
                        ).push(property_model(prop)));
                    }
                },
                None => {},
            },
            None => {},
        }
        i = i + 1;
    }
    proof {
        assert(ps@.take(i as int) =~= ps@);
    }
    props
}

/// A saved clip read back (see `loaded_clip`); `None` when its schema is unknown.
fn load_clip(c: &SavedClip, schemas: &Vec<NamedSchema>) -> (r: Option<Clip>)
    ensures
        match r {
            Some(x) => loaded_clip(*c, schemas@) == Some(clip_model(x)),
            None => loaded_clip(*c, schemas@) is None,
        },
{
    let si = match find_schema(schemas, &c.schema) {
        Some(i) => i,
        None => {
            return None;
        },
    };
    proof {
        lemma_first_named(schema_names(schemas@), c.schema@);
    }
    let schema = &schemas[si];
    let (source, property_groups) = match &c.animation {
        Some(a) => (
            ClipSource::Animation(AnimationClip { target_clip: a.target_clip, properties: load_properties(&a.properties, schema) }),
            Vec::new(),
        ),
        None => (ClipSource::Generator, load_groups(schema, &c.property_groups)),
    };
    let clip = Clip {
        id: c.id,
        name: c.name.clone(),
        schema: si,
        source,
        offset_frames: c.offset_frames,
        duration_frames: c.duration_frames,
        property_groups,
        is_selected: false,
    };
    proof {
        if c.animation is Some {
            assert(clip.property_groups@.map_values(|g: PropertyGroup| g.defaults@) =~= Seq::<Seq<PropertyDefault>>::empty());
        }
    }
    Some(clip)
}

/// A track that reads back in full reads back in full up to any clip.
proof fn lemma_loaded_track_prefix(cs: Seq<SavedClip>, ss: Seq<NamedSchema>, m: int, n: int)
    requires
        0 <= m <= n,
        loaded_track(cs, ss, n) is Some,
    ensures
        loaded_track(cs, ss, m) is Some,
    decreases n - m,
{
    if m < n {
        lemma_loaded_track_prefix(cs, ss, m, n - 1);
    }
}

/// A saved track read back (see `loaded_track`): the clips of unknown schemas are dropped, and
/// the next clip kept keeps its start frame.
pub fn load_track(track: &SavedTrack, schemas: &Vec<NamedSchema>) -> (r: Track)
    requires
        loaded_track(track.clips@, schemas@, track.clips@.len() as int) is Some,
    ensures
        r.clips@.map_values(|c: Clip| clip_model(c)) == loaded_track(
            track.clips@,
            schemas@,
            track.clips@.len() as int,
        ).unwrap().0,
{
    let ghost cs = track.clips@;
    let ghost ss = schemas@;
    let n = track.clips.len();
    let mut clips: Vec<Clip> = Vec::new();
    let mut next_offset: u32 = 0;
    let mut i: usize = 0;
    proof {
        assert(clips@.map_values(|c: Clip| clip_model(c)) =~= Seq::<ClipModel>::empty());
    }
    while i < n
        invariant
            n == cs.len(),
            cs == track.clips@,
            ss == schemas@,
            i <= n,
            loaded_track(cs, ss, n as int) is Some,
            loaded_track(cs, ss, i as int) == Some((clips@.map_values(|c: Clip| clip_model(c)), next_offset)),
        decreases n - i,
    {
        proof {
            lemma_loaded_track_prefix(cs, ss, i + 1, n as int);
        }
        let ghost before = clips@;
        match load_clip(&track.clips[i], schemas) {
            Some(c) => {
                let mut c = c;
                c.offset_frames = c.offset_frames + next_offset;
                next_offset = 0;
                clips.push(c);
                proof {
                    assert(clips@.map_values(|c: Clip| clip_model(c)) =~= before.map_values(|c: Clip| clip_model(c)).push(
                        clip_model(c),
                    ));
                }
            },
            None => {
                let dropped = track.clips[i].offset_frames + track.clips[i].duration_frames;
                next_offset = next_offset + dropped;
            },
        }
        i = i + 1;
    }
    Track { clips }
}

/// A saved timeline read back, track by track (see `load_track`).
pub fn load_timeline(saved: &SavedTimeline, schemas: &Vec<NamedSchema>) -> (t: Timeline)
    requires
        forall|k: int|
            0 <= k < saved.tracks@.len() ==> loaded_track(
                #[trigger] saved.tracks@[k].clips@,
                schemas@,
                saved.tracks@[k].clips@.len() as int,
            ) is Some,
    ensures
        t.tracks@.len() == saved.tracks@.len(),
        forall|k: int|
            0 <= k < saved.tracks@.len() ==> (#[trigger] t.tracks@[k]).clips@.map_values(|c: Clip| clip_model(c))
                == loaded_track(saved.tracks@[k].clips@, schemas@, saved.tracks@[k].clips@.len() as int).unwrap().0,
{
    let mut tracks: Vec<Track> = Vec::new();
    let mut k: usize = 0;
    while k < saved.tracks.len()
        invariant
            k <= saved.tracks@.len(),
            tracks@.len() == k,
            forall|kk: int|
                0 <= kk < saved.tracks@.len() ==> loaded_track(
                    #[trigger] saved.tracks@[kk].clips@,
                    schemas@,
                    saved.tracks@[kk].clips@.len() as int,
                ) is Some,
            forall|kk: int|
                0 <= kk < k ==> (#[trigger] tracks@[kk]).clips@.map_values(|c: Clip| clip_model(c)) == loaded_track(
                    saved.tracks@[kk].clips@,
                    schemas@,
                    saved.tracks@[kk].clips@.len() as int,
                ).unwrap().0,
        decreases saved.tracks@.len() - k,
    {
        let t = load_track(&saved.tracks[k], schemas);
        tracks.push(t);
        k = k + 1;
    }
    Timeline { tracks }
}

/// The smaller of two lengths.
pub open spec fn shorter(a: nat, b: nat) -> nat {
    if a <= b {
        a
    } else {
        b
    }
}

/// `d` saves the default `v` of schema property `prop`, under the property's name.
pub open spec fn default_saved_as(d: SavedPropertyDefault, v: PropertyDefault, prop: NamedProperty) -> bool {
    &&& d.name@ == prop.name@
    &&& d.value == v.value
    &&& d.is_override == v.is_override
}

/// `sg` saves the group `g` of schema group `sch` under the group's name, one default for each
/// property of both (as many as the shorter has).
pub open spec fn group_saved_as(sg: SavedPropertyGroup, g: PropertyGroup, sch: NamedGroup) -> bool {
    &&& sg.name@ == sch.name@
    &&& sg.defaults@.len() == shorter(g.defaults@.len(), sch.properties@.len())
    &&& forall|p: int|
        0 <= p < sg.defaults@.len() ==> default_saved_as(#[trigger] sg.defaults@[p], g.defaults@[p], sch.properties@[p])
}

/// `sp` saves the animated property `p` of a clip of schema `s`, under the names of its group
/// and property.
pub open spec fn property_saved_as(sp: SavedAnimatedProperty, p: AnimatedProperty, s: NamedSchema) -> bool {
    &&& sp.group_name@ == s.groups@[p.group_index as int].name@
    &&& sp.property_name@ == s.groups@[p.group_index as int].properties@[p.property_index as int].name@
    &&& target_model(sp.target) == target_model(p.target)
}

/// Each animated property names a group of schema `s` and a property of that group.
pub open spec fn properties_in_schema(ps: Seq<AnimatedProperty>, s: NamedSchema) -> bool {
    forall|i: int|
        0 <= i < ps.len() ==> (#[trigger] ps[i]).group_index < s.groups@.len() && ps[i].property_index
            < s.groups@[ps[i].group_index as int].properties@.len()
}

/// A clip can be saved with schemas `ss`: its schema is one of them, and an animation clip's
/// properties are in that schema.
pub open spec fn clip_savable(c: Clip, ss: Seq<NamedSchema>) -> bool {
    &&& c.schema < ss.len()
    &&& c.source matches ClipSource::Animation(a) ==> properties_in_schema(a.properties@, ss[c.schema as int])
}

/// `sc` saves the clip `c` with schemas `ss`: its schema by name, its animation with properties
/// by name, and its property groups, with each group and default by name, as far as both the
/// clip and its schema go.
pub open spec fn clip_saved_as(sc: SavedClip, c: Clip, ss: Seq<NamedSchema>) -> bool {
    let s = ss[c.schema as int];
    &&& sc.id == c.id
    &&& sc.name@ == c.name@
    &&& sc.schema@ == s.name@
    &&& sc.offset_frames == c.offset_frames
    &&& sc.duration_frames == c.duration_frames
    &&& match c.source {
        ClipSource::Animation(a) => {
            &&& sc.animation matches Some(sa)
            &&& sa.target_clip == a.target_clip
            &&& sa.properties@.len() == a.properties@.len()
            &&& forall|i: int|
                0 <= i < a.properties@.len() ==> property_saved_as(#[trigger] sa.properties@[i], a.properties@[i], s)
        },
        ClipSource::Generator => sc.animation is None,
    }
    &&& sc.property_groups@.len() == shorter(c.property_groups@.len(), s.groups@.len())
    &&& forall|g: int|
        0 <= g < sc.property_groups@.len() ==> group_saved_as(
            #[trigger] sc.property_groups@[g],
            c.property_groups@[g],
            s.groups@[g],
        )
}

/// Saves a group of property defaults of schema group `sch` (see `group_saved_as`).
fn save_group(g: &PropertyGroup, sch: &NamedGroup) -> (r: SavedPropertyGroup)
    ensures
        group_saved_as(r, *g, *sch),
{
    let n = if g.defaults.len() <= sch.properties.len() {
        g.defaults.len()
    } else {
        sch.properties.len()
    };
    let mut defaults: Vec<SavedPropertyDefault> = Vec::new();
    let mut p: usize = 0;
    while p < n
        invariant
            n == shorter(g.defaults@.len(), sch.properties@.len()),
            p <= n,
            defaults@.len() == p,
            forall|q: int|
                0 <= q < p ==> default_saved_as(#[trigger] defaults@[q], g.defaults@[q], sch.properties@[q]),
        decreases n - p,
    {
        let d = SavedPropertyDefault {
            name: sch.properties[p].name.clone(),
            value: g.defaults[p].value,
            is_override: g.defaults[p].is_override,
        };
        defaults.push(d);
        p = p + 1;
    }
    SavedPropertyGroup { name: sch.name.clone(), defaults }
}

/// Saves a clip with schemas `schemas` (see `clip_saved_as`).
pub fn save_clip(c: &Clip, schemas: &Vec<NamedSchema>) -> (r: SavedClip)
    requires
        clip_savable(*c, schemas@),
    ensures
        clip_saved_as(r, *c, schemas@),
{
    let s = &schemas[c.schema];
    let animation = match &c.source {
        ClipSource::Animation(a) => {
            let mut properties: Vec<SavedAnimatedProperty> = Vec::new();
            let mut i: usize = 0;
            while i < a.properties.len()
                invariant
                    i <= a.properties@.len(),
                    properties_in_schema(a.properties@, *s),
                    properties@.len() == i,
                    forall|k: int|
                        0 <= k < i ==> property_saved_as(#[trigger] properties@[k], a.properties@[k], *s),
                decreases a.properties@.len() - i,
            {
                let p = &a.properties[i];
                proof {
                    assert(properties_in_schema(a.properties@, *s));
                    assert(a.properties@[i as int] == *p);
                }
                let group = &s.groups[p.group_index];
                let sp = SavedAnimatedProperty {
                    group_name: group.name.clone(),
                    property_name: group.properties[p.property_index].name.clone(),
                    target: copy_target(&p.target),
                };
                properties.push(sp);
                i = i + 1;
            }
            Some(SavedAnimationClip { target_clip: a.target_clip, properties })
        },
        ClipSource::Generator => None,
    };
    let n = if c.property_groups.len() <= s.groups.len() {
        c.property_groups.len()
    } else {
        s.groups.len()
    };
    let mut property_groups: Vec<SavedPropertyGroup> = Vec::new();
    let mut g: usize = 0;
    while g < n
        invariant
            n == shorter(c.property_groups@.len(), s.groups@.len()),
            g <= n,
            property_groups@.len() == g,
            forall|k: int|
                0 <= k < g ==> group_saved_as(#[trigger] property_groups@[k], c.property_groups@[k], s.groups@[k]),
        decreases n - g,
    {
        let sg = save_group(&c.property_groups[g], &s.groups[g]);
        property_groups.push(sg);
        g = g + 1;
    }
    SavedClip {
        id: c.id,
        name: c.name.clone(),
        schema: s.name.clone(),
        animation,
        offset_frames: c.offset_frames,
        duration_frames: c.duration_frames,
        property_groups,
    }
}

/// Every clip of the timeline can be saved with schemas `ss`.
pub open spec fn timeline_savable(t: Timeline, ss: Seq<NamedSchema>) -> bool {
    forall|k: int, i: int|
        0 <= k < t.tracks@.len() && 0 <= i < t.tracks@[k].clips@.len() ==> clip_savable(
            #[trigger] t.tracks@[k].clips@[i],
            ss,
        )
}

/// `st` saves the timeline `t` with schemas `ss`, clip by clip (see `clip_saved_as`).
pub open spec fn timeline_saved_as(st: SavedTimeline, t: Timeline, ss: Seq<NamedSchema>) -> bool {
    &&& st.tracks@.len() == t.tracks@.len()
    &&& forall|k: int| 0 <= k < t.tracks@.len() ==> (#[trigger] st.tracks@[k]).clips@.len() == t.tracks@[k].clips@.len()
    &&& forall|k: int, i: int|
        0 <= k < t.tracks@.len() && 0 <= i < t.tracks@[k].clips@.len() ==> clip_saved_as(
            #[trigger] st.tracks@[k].clips@[i],
            t.tracks@[k].clips@[i],
            ss,
        )
}

/// Saves a timeline with schemas `schemas` (see `timeline_saved_as`).
pub fn save_timeline(t: &Timeline, schemas: &Vec<NamedSchema>) -> (r: SavedTimeline)
    requires
        timeline_savable(*t, schemas@),
    ensures
        timeline_saved_as(r, *t, schemas@),
{
    let mut tracks: Vec<SavedTrack> = Vec::new();
    let mut k: usize = 0;
    while k < t.tracks.len()
        invariant
            k <= t.tracks@.len(),
            timeline_savable(*t, schemas@),
            tracks@.len() == k,
            forall|kk: int| 0 <= kk < k ==> (#[trigger] tracks@[kk]).clips@.len() == t.tracks@[kk].clips@.len(),
            forall|kk: int, i: int|
                0 <= kk < k && 0 <= i < t.tracks@[kk].clips@.len() ==> clip_saved_as(
                    #[trigger] tracks@[kk].clips@[i],
                    t.tracks@[kk].clips@[i],
                    schemas@,
                ),
        decreases t.tracks@.len() - k,
    {
        let track = &t.tracks[k];
        let mut clips: Vec<SavedClip> = Vec::new();
        let mut i: usize = 0;
        while i < track.clips.len()
            invariant
                k < t.tracks@.len(),
                *track == t.tracks@[k as int],
                timeline_savable(*t, schemas@),
                i <= track.clips@.len(),
                clips@.len() == i,
                forall|ii: int| 0 <= ii < i ==> clip_saved_as(#[trigger] clips@[ii], track.clips@[ii], schemas@),
            decreases track.clips@.len() - i,
        {
            proof {
                assert(clip_savable(t.tracks@[k as int].clips@[i as int], schemas@));
            }
            let sc = save_clip(&track.clips[i], schemas);
            clips.push(sc);
            i = i + 1;
        }
        tracks.push(SavedTrack { clips });
        k = k + 1;
    }
    SavedTimeline { tracks }
}

/// A clip as the project file keeps it: the file keeps no editor state, so no clip is selected
/// and no animated property collapsed.
pub open spec fn without_editor_state(m: ClipModel) -> ClipModel {
    ClipModel {
        is_selected: false,
        source: match m.source {
            SourceModel::Animation(target, ps) => SourceModel::Animation(
                target,
                ps.map_values(|p: PropertyModel| expanded(p)),
            ),
            SourceModel::Generator => SourceModel::Generator,
        },
        ..m
    }
}

/// An animated property that is not collapsed.
pub open spec fn expanded(p: PropertyModel) -> PropertyModel {
    PropertyModel { is_collapsed: false, ..p }
}

/// The schemas can be told apart by name, and so can the groups of each schema and the
/// properties of each group.
pub open spec fn schemas_named_apart(ss: Seq<NamedSchema>) -> bool {
    &&& schema_names(ss).no_duplicates()
    &&& forall|i: int| 0 <= i < ss.len() ==> group_names((#[trigger] ss[i]).groups@).no_duplicates()
    &&& forall|i: int, g: int|
        0 <= i < ss.len() && 0 <= g < ss[i].groups@.len() ==> property_names(
            (#[trigger] ss[i].groups@[g]).properties@,
        ).no_duplicates()
}

/// The clip's property groups match schema `s`: a generator clip has one group of defaults per
/// group of the schema, with one default per property; an animation clip has none.
pub open spec fn groups_match_schema(c: Clip, s: NamedSchema) -> bool {
    match c.source {
        ClipSource::Generator => {
            &&& c.property_groups@.len() == s.groups@.len()
            &&& forall|g: int|
                0 <= g < s.groups@.len() ==> (#[trigger] c.property_groups@[g]).defaults@.len()
                    == s.groups@[g].properties@.len()
        },
        ClipSource::Animation(_) => c.property_groups@.len() == 0,
    }
}

/// The saved animated properties of a clip read back as the clip's own, expanded.
proof fn lemma_properties_reload(sps: Seq<SavedAnimatedProperty>, ps: Seq<AnimatedProperty>, s: NamedSchema, n: int)
    requires
        0 <= n <= ps.len(),
        sps.len() == ps.len(),
        properties_in_schema(ps, s),
        group_names(s.groups@).no_duplicates(),
        forall|g: int| 0 <= g < s.groups@.len() ==> property_names((#[trigger] s.groups@[g]).properties@).no_duplicates(),
        forall|i: int| 0 <= i < ps.len() ==> property_saved_as(#[trigger] sps[i], ps[i], s),
    ensures
        loaded_properties(sps.take(n), s) == ps.take(n).map_values(|p: AnimatedProperty| expanded(property_model(p))),
    decreases n,
{
    if n == 0 {
        assert(sps.take(0) =~= Seq::<SavedAnimatedProperty>::empty());
        assert(ps.take(0).map_values(|p: AnimatedProperty| expanded(property_model(p))) =~= Seq::<PropertyModel>::empty());
    } else {
        lemma_properties_reload(sps, ps, s, n - 1);
        assert(sps.take(n).drop_last() =~= sps.take(n - 1));
        assert(sps.take(n).last() == sps[n - 1]);
        let p = ps[n - 1];
        let sp = sps[n - 1];
        assert(property_saved_as(sp, p, s));
        assert(properties_in_schema(ps, s));
        assert(ps[n - 1] == p);
        let gi = p.group_index as int;
        let pi = p.property_index as int;
        assert(group_names(s.groups@)[gi] == s.groups@[gi].name@);
        lemma_distinct_named(group_names(s.groups@), gi);
        assert(property_names(s.groups@[gi].properties@)[pi] == s.groups@[gi].properties@[pi].name@);
        lemma_distinct_named(property_names(s.groups@[gi].properties@), pi);
        assert(loaded_property(sp, s) == Some(expanded(property_model(p))));
        assert(ps.take(n).map_values(|p: AnimatedProperty| expanded(property_model(p))) =~= ps.take(n - 1).map_values(
            |p: AnimatedProperty| expanded(property_model(p)),
        ).push(expanded(property_model(p))));
    }
}

/// The saved groups of a generator clip read back as the clip's own.
proof fn lemma_groups_reload(sc: SavedClip, c: Clip, s: NamedSchema)
    requires
        c.source is Generator,
        groups_match_schema(c, s),
        group_names(s.groups@).no_duplicates(),
        forall|g: int| 0 <= g < s.groups@.len() ==> property_names((#[trigger] s.groups@[g]).properties@).no_duplicates(),
        sc.property_groups@.len() == shorter(c.property_groups@.len(), s.groups@.len()),
        forall|g: int|
            0 <= g < sc.property_groups@.len() ==> group_saved_as(
                #[trigger] sc.property_groups@[g],
                c.property_groups@[g],
                s.groups@[g],
            ),
    ensures
        loaded_groups(s, sc.property_groups@) == c.property_groups@.map_values(|g: PropertyGroup| g.defaults@),
{
    let sgs = sc.property_groups@;
    assert(saved_group_names(sgs) =~= group_names(s.groups@)) by {
        assert forall|g: int| 0 <= g < sgs.len() implies saved_group_names(sgs)[g] == group_names(s.groups@)[g] by {
            assert(group_saved_as(sgs[g], c.property_groups@[g], s.groups@[g]));
        }
    }
    assert forall|g: int| 0 <= g < s.groups@.len() implies #[trigger] loaded_groups(s, sgs)[g] == c.property_groups@[g].defaults@ by {
        let sch = s.groups@[g];
        lemma_distinct_named(group_names(s.groups@), g);
        assert(saved_group_for(sch, sgs) == Some(sgs[g]));
        let sg = sgs[g];
        assert(group_saved_as(sg, c.property_groups@[g], sch));
        assert(saved_default_names(sg.defaults@) =~= property_names(sch.properties@)) by {
            assert forall|p: int| 0 <= p < sg.defaults@.len() implies saved_default_names(sg.defaults@)[p]
                == property_names(sch.properties@)[p] by {
                assert(default_saved_as(sg.defaults@[p], c.property_groups@[g].defaults@[p], sch.properties@[p]));
            }
        }
        assert(property_names(sch.properties@).no_duplicates());
        assert(loaded_defaults(sch, Some(sg)) =~= c.property_groups@[g].defaults@) by {
            assert forall|p: int| 0 <= p < sch.properties@.len() implies loaded_defaults(sch, Some(sg))[p]
                == c.property_groups@[g].defaults@[p] by {
                lemma_distinct_named(property_names(sch.properties@), p);
                assert(default_saved_as(sg.defaults@[p], c.property_groups@[g].defaults@[p], sch.properties@[p]));
            }
        }
    }
    assert(loaded_groups(s, sgs) =~= c.property_groups@.map_values(|g: PropertyGroup| g.defaults@));
}

/// A saved clip reads back as the clip, apart from editor state.
proof fn lemma_clip_reloads(sc: SavedClip, c: Clip, ss: Seq<NamedSchema>)
    requires
        schemas_named_apart(ss),
        clip_savable(c, ss),
        groups_match_schema(c, ss[c.schema as int]),
        clip_saved_as(sc, c, ss),
    ensures
        loaded_clip(sc, ss) == Some(without_editor_state(clip_model(c))),
{
    let si = c.schema as int;
    let s = ss[si];
    assert(schema_names(ss)[si] == s.name@);
    lemma_distinct_named(schema_names(ss), si);
    assert(first_named(schema_names(ss), sc.schema@) == Some(si));
    assert(group_names(s.groups@).no_duplicates());
    assert forall|g: int| 0 <= g < s.groups@.len() implies property_names((#[trigger] s.groups@[g]).properties@).no_duplicates() by {
        assert(property_names(ss[si].groups@[g].properties@).no_duplicates());
    }
    match c.source {
        ClipSource::Animation(a) => {
            let sa = sc.animation->0;
            lemma_properties_reload(sa.properties@, a.properties@, s, a.properties@.len() as int);
            assert(sa.properties@.take(a.properties@.len() as int) =~= sa.properties@);
            assert(a.properties@.take(a.properties@.len() as int) =~= a.properties@);
            assert(a.properties@.map_values(|p: AnimatedProperty| expanded(property_model(p))) =~= a.properties@.map_values(
                |p: AnimatedProperty| property_model(p),
            ).map_values(|p: PropertyModel| expanded(p)));
            assert(c.property_groups@.map_values(|g: PropertyGroup| g.defaults@) =~= Seq::<Seq<PropertyDefault>>::empty());
        },
        ClipSource::Generator => {
            lemma_groups_reload(sc, c, s);
        },
    }
}

/// Saving a timeline and reading the file back gives each track's clips again, apart from the
/// editor state that the file does not keep (selection, collapsed properties), and no frames of
/// dropped clips are left over: when the schemas, the groups of each schema and the properties
/// of each group can be told apart by name, and each clip's property groups match its schema.
pub proof fn law_save_then_load(t: Timeline, saved: SavedTimeline, ss: Seq<NamedSchema>)
    requires
        schemas_named_apart(ss),
        timeline_savable(t, ss),
        forall|k: int, i: int|
            0 <= k < t.tracks@.len() && 0 <= i < t.tracks@[k].clips@.len() ==> groups_match_schema(
                #[trigger] t.tracks@[k].clips@[i],
                ss[t.tracks@[k].clips@[i].schema as int],
            ),
        timeline_saved_as(saved, t, ss),
    ensures
        forall|k: int|
            0 <= k < t.tracks@.len() ==> loaded_track(
                #[trigger] saved.tracks@[k].clips@,
                ss,
                saved.tracks@[k].clips@.len() as int,
            ) == Some((t.tracks@[k].clips@.map_values(|c: Clip| without_editor_state(clip_model(c))), 0u32)),
{
    assert forall|k: int| 0 <= k < t.tracks@.len() implies loaded_track(
        #[trigger] saved.tracks@[k].clips@,
        ss,
        saved.tracks@[k].clips@.len() as int,
    ) == Some((t.tracks@[k].clips@.map_values(|c: Clip| without_editor_state(clip_model(c))), 0u32)) by {
        lemma_track_reloads(t, saved, ss, k, t.tracks@[k].clips@.len() as int);
        assert(t.tracks@[k].clips@.take(t.tracks@[k].clips@.len() as int) =~= t.tracks@[k].clips@);
    }
}

/// The first `n` saved clips of track `k` read back as its first `n` clips.
proof fn lemma_track_reloads(t: Timeline, saved: SavedTimeline, ss: Seq<NamedSchema>, k: int, n: int)
    requires
        0 <= k < t.tracks@.len(),
        0 <= n <= t.tracks@[k].clips@.len(),
        schemas_named_apart(ss),
        timeline_savable(t, ss),
        forall|kk: int, i: int|
            0 <= kk < t.tracks@.len() && 0 <= i < t.tracks@[kk].clips@.len() ==> groups_match_schema(
                #[trigger] t.tracks@[kk].clips@[i],
                ss[t.tracks@[kk].clips@[i].schema as int],
            ),
        timeline_saved_as(saved, t, ss),
    ensures
        loaded_track(saved.tracks@[k].clips@, ss, n) == Some(
            (t.tracks@[k].clips@.take(n).map_values(|c: Clip| without_editor_state(clip_model(c))), 0u32),
        ),
    decreases n,
{
    let clips = t.tracks@[k].clips@;
    if n == 0 {
        assert(clips.take(0).map_values(|c: Clip| without_editor_state(clip_model(c))) =~= Seq::<ClipModel>::empty());
    } else {
        lemma_track_reloads(t, saved, ss, k, n - 1);
        let c = clips[n - 1];
        let sc = saved.tracks@[k].clips@[n - 1];
        assert(clip_savable(t.tracks@[k].clips@[n - 1], ss));
        assert(groups_match_schema(t.tracks@[k].clips@[n - 1], ss[c.schema as int]));
        assert(clip_saved_as(saved.tracks@[k].clips@[n - 1], t.tracks@[k].clips@[n - 1], ss));
        lemma_clip_reloads(sc, c, ss);
        let m = without_editor_state(clip_model(c));
        assert(ClipModel { offset_frames: (m.offset_frames + 0u32) as u32, ..m } == m);
        assert(clips.take(n).map_values(|c: Clip| without_editor_state(clip_model(c))) =~= clips.take(n - 1).map_values(
            |c: Clip| without_editor_state(clip_model(c)),
        ).push(m));
    }
}

/// Whether a saved track reads back without a frame count overflowing (what `load_track` asks).
pub fn track_loadable(track: &SavedTrack, schemas: &Vec<NamedSchema>) -> (r: bool)
    ensures
        r == loaded_track(track.clips@, schemas@, track.clips@.len() as int) is Some,
{
    let ghost cs = track.clips@;
    let ghost ss = schemas@;
    let n = track.clips.len();
    let mut carry: u32 = 0;
    let mut i: usize = 0;
    while i < n
        invariant
            n == cs.len(),
            cs == track.clips@,
            ss == schemas@,
            i <= n,
            loaded_track(cs, ss, i as int) matches Some((_, c)) && c == carry,
        decreases n - i,
    {
        let c = &track.clips[i];
        proof {
            lemma_first_named(schema_names(ss), c.schema@);
        }
        let known = match find_schema(schemas, &c.schema) {
            Some(_) => true,
            None => false,
        };
        if known {
            if c.offset_frames as u64 + carry as u64 > u32::MAX as u64 {
                proof {
                    lemma_loaded_track_none_after(cs, ss, i + 1, n as int);
                }
                return false;
            }
            carry = 0;
        } else {
            if c.offset_frames as u64 + c.duration_frames as u64 + carry as u64 > u32::MAX as u64 {
                proof {
                    lemma_loaded_track_none_after(cs, ss, i + 1, n as int);
                }
                return false;
            }
            carry = carry + c.offset_frames + c.duration_frames;
        }
        i = i + 1;
    }
    true
}

/// A track that fails to read back up to some clip fails on all of it.
proof fn lemma_loaded_track_none_after(cs: Seq<SavedClip>, ss: Seq<NamedSchema>, m: int, n: int)
    requires
        0 <= m <= n,
        loaded_track(cs, ss, m) is None,
    ensures
        loaded_track(cs, ss, n) is None,
    decreases n - m,
{
    if m < n {
        lemma_loaded_track_none_after(cs, ss, m, n - 1);
    }
}

/// Whether every clip of the timeline can be saved with these schemas (what `save_timeline`
/// asks).
pub fn timeline_savable_with(t: &Timeline, schemas: &Vec<NamedSchema>) -> (r: bool)
    ensures
        r == timeline_savable(*t, schemas@),
{
    let mut k: usize = 0;
    while k < t.tracks.len()
        invariant
            k <= t.tracks@.len(),
            forall|kk: int, i: int|
                0 <= kk < k && 0 <= i < t.tracks@[kk].clips@.len() ==> clip_savable(
                    #[trigger] t.tracks@[kk].clips@[i],
                    schemas@,
                ),
        decreases t.tracks@.len() - k,
    {
        let track = &t.tracks[k];
        let mut i: usize = 0;
        while i < track.clips.len()
            invariant
                k < t.tracks@.len(),
                *track == t.tracks@[k as int],
                i <= track.clips@.len(),
                forall|kk: int, ii: int|
                    0 <= kk < k && 0 <= ii < t.tracks@[kk].clips@.len() ==> clip_savable(
                        #[trigger] t.tracks@[kk].clips@[ii],
                        schemas@,
                    ),
                forall|ii: int| 0 <= ii < i ==> clip_savable(#[trigger] track.clips@[ii], schemas@),
            decreases track.clips@.len() - i,
        {
            if !clip_savable_with(&track.clips[i], schemas) {
                return false;
            }
            i = i + 1;
        }
        proof {
            assert forall|kk: int, ii: int|
                0 <= kk < k + 1 && 0 <= ii < t.tracks@[kk].clips@.len() implies clip_savable(
                    #[trigger] t.tracks@[kk].clips@[ii],
                    schemas@,
                ) by {
                if kk == k {
                    assert(track.clips@[ii] == t.tracks@[kk].clips@[ii]);
                }
            }
        }
        k = k + 1;
    }
    true
}

/// Whether a clip can be saved with these schemas (see `clip_savable`).
fn clip_savable_with(c: &Clip, schemas: &Vec<NamedSchema>) -> (r: bool)
    ensures
        r == clip_savable(*c, schemas@),
{
    if c.schema >= schemas.len() {
        return false;
    }
    let s = &schemas[c.schema];
    match &c.source {
        ClipSource::Animation(a) => {
            let mut i: usize = 0;
            while i < a.properties.len()
                invariant
                    c.schema < schemas@.len(),
                    *s == schemas@[c.schema as int],
                    c.source == ClipSource::Animation(*a),
                    i <= a.properties@.len(),
                    forall|k: int|
                        0 <= k < i ==> (#[trigger] a.properties@[k]).group_index < s.groups@.len()
                            && a.properties@[k].property_index < s.groups@[a.properties@[k].group_index as int].properties@.len(),
                decreases a.properties@.len() - i,
            {
                let p = &a.properties[i];
                if p.group_index >= s.groups.len() || p.property_index >= s.groups[p.group_index].properties.len() {
                    proof {
                        assert(a.properties@[i as int] == *p);
                        assert(!properties_in_schema(a.properties@, *s));
                    }
                    return false;
                }
                i = i + 1;
            }
            true
        },
        ClipSource::Generator => true,
    }
}

/// The bytes of a file name as the file system orders names.
pub open spec fn name_bytes(name: String) -> Seq<u8> {
    vstd::utf8::encode_utf8(name@)
}

/// `a` comes before `b` in byte order, comparing from position `i` on (the bytes before `i`
/// being equal).
pub open spec fn bytes_before_from(a: Seq<u8>, b: Seq<u8>, i: int) -> bool
    decreases a.len() - i,
{
    if i < 0 || i >= a.len() {
        0 <= i < b.len()
    } else if i >= b.len() {
        false
    } else if a[i] != b[i] {
        a[i] < b[i]
    } else {
        bytes_before_from(a, b, i + 1)
    }
}

/// `a` comes before `b` in byte order.
pub open spec fn bytes_before(a: Seq<u8>, b: Seq<u8>) -> bool {
    bytes_before_from(a, b, 0)
}

/// Byte order is transitive.
proof fn lemma_bytes_before_transitive(a: Seq<u8>, b: Seq<u8>, c: Seq<u8>, i: int)
    requires
        0 <= i,
        bytes_before_from(a, b, i),
        bytes_before_from(b, c, i),
    ensures
        bytes_before_from(a, c, i),
    decreases a.len() - i,
{
    if i < a.len() && i < b.len() && i < c.len() && a[i] == b[i] && b[i] == c[i] {
        lemma_bytes_before_transitive(a, b, c, i + 1);
    }
}

/// Whether file name `a` comes before `b` in byte order.
fn name_before(a: &String, b: &String) -> (r: bool)
    ensures
        r == bytes_before(name_bytes(*a), name_bytes(*b)),
{
    let x = a.as_str().as_bytes();
    let y = b.as_str().as_bytes();
    let mut i: usize = 0;
    while i < x.len() && i < y.len()
        invariant
            x@ == name_bytes(*a),
            y@ == name_bytes(*b),
            i <= x@.len(),
            i <= y@.len(),
            bytes_before_from(x@, y@, 0) == bytes_before_from(x@, y@, i as int),
        decreases x@.len() - i,
    {
        if x[i] != y[i] {
            return x[i] < y[i];
        }
        i = i + 1;
    }
    i >= x.len() && i < y.len()
}

/// Which of the backup files named `names` to delete so that at most 100 remain: none when
/// there are no more than 100, else one whose name comes first in byte order (the backups are
/// named by date, so this is the oldest).
pub fn oldest_backup(names: &Vec<String>) -> (r: Option<usize>)
    ensures
        names@.len() <= 100 <==> r is None,
        r matches Some(i) ==> i < names@.len() && forall|j: int|
            0 <= j < names@.len() ==> !bytes_before(name_bytes(#[trigger] names@[j]), name_bytes(names@[i as int])),
{
    if names.len() <= 100 {
        return None;
    }
    let mut best: usize = 0;
    let mut j: usize = 1;
    proof {
        lemma_bytes_before_irreflexive(name_bytes(names@[0]), 0);
    }
    while j < names.len()
        invariant
            best < j <= names@.len(),
            forall|q: int| 0 <= q < j ==> !bytes_before(name_bytes(#[trigger] names@[q]), name_bytes(names@[best as int])),
        decreases names@.len() - j,
    {
        if name_before(&names[j], &names[best]) {
            proof {
                assert forall|q: int| 0 <= q < j implies !bytes_before(
                    name_bytes(#[trigger] names@[q]),
                    name_bytes(names@[j as int]),
                ) by {
                    if bytes_before(name_bytes(names@[q]), name_bytes(names@[j as int])) {
                        lemma_bytes_before_transitive(
                            name_bytes(names@[q]),
                            name_bytes(names@[j as int]),
                            name_bytes(names@[best as int]),
                            0,
                        );
                    }
                }
                lemma_bytes_before_irreflexive(name_bytes(names@[j as int]), 0);
            }
            best = j;
        }
        j = j + 1;
    }
    Some(best)
}

/// From position `i` on, byte order is lexicographic order: `a` comes before `b` exactly when,
/// at the first position `k` from `i` on where they differ, `a` has the smaller byte, or `a`
/// ends there and `b` goes on.
proof fn lemma_before_from_lexicographic(a: Seq<u8>, b: Seq<u8>, i: int)
    requires
        0 <= i <= a.len(),
        i <= b.len(),
    ensures
        bytes_before_from(a, b, i) <==> exists|k: int|
            #![trigger a.subrange(i, k)]
            i <= k <= a.len() && k <= b.len() && a.subrange(i, k) == b.subrange(i, k) && ((k < a.len() && k
                < b.len() && a[k] < b[k]) || (k == a.len() && k < b.len())),
    decreases a.len() - i,
{
    if i == a.len() || i == b.len() {
        if bytes_before_from(a, b, i) {
            assert(a.subrange(i, i) =~= b.subrange(i, i));
        }
    } else if a[i] != b[i] {
        if bytes_before_from(a, b, i) {
            assert(a.subrange(i, i) =~= b.subrange(i, i));
        }
        if exists|k: int|
            #![trigger a.subrange(i, k)]
            i <= k <= a.len() && k <= b.len() && a.subrange(i, k) == b.subrange(i, k) && ((k < a.len() && k
                < b.len() && a[k] < b[k]) || (k == a.len() && k < b.len())) {
            let k = choose|k: int|
                #![trigger a.subrange(i, k)]
                i <= k <= a.len() && k <= b.len() && a.subrange(i, k) == b.subrange(i, k) && ((k < a.len() && k
                    < b.len() && a[k] < b[k]) || (k == a.len() && k < b.len()));
            if k > i {
                assert(a.subrange(i, k)[0] == b.subrange(i, k)[0]);
            }
        }
    } else {
        lemma_before_from_lexicographic(a, b, i + 1);
        if bytes_before_from(a, b, i) {
            let k = choose|k: int|
                #![trigger a.subrange(i + 1, k)]
                i + 1 <= k <= a.len() && k <= b.len() && a.subrange(i + 1, k) == b.subrange(i + 1, k) && ((k
                    < a.len() && k < b.len() && a[k] < b[k]) || (k == a.len() && k < b.len()));
            assert(a.subrange(i, k) =~= seq![a[i]] + a.subrange(i + 1, k));
            assert(b.subrange(i, k) =~= seq![b[i]] + b.subrange(i + 1, k));
        }
        if exists|k: int|
            #![trigger a.subrange(i, k)]
            i <= k <= a.len() && k <= b.len() && a.subrange(i, k) == b.subrange(i, k) && ((k < a.len() && k
                < b.len() && a[k] < b[k]) || (k == a.len() && k < b.len())) {
            let k = choose|k: int|
                #![trigger a.subrange(i, k)]
                i <= k <= a.len() && k <= b.len() && a.subrange(i, k) == b.subrange(i, k) && ((k < a.len() && k
                    < b.len() && a[k] < b[k]) || (k == a.len() && k < b.len()));
            assert(k != i);
            assert(a.subrange(i + 1, k) =~= a.subrange(i, k).drop_first());
            assert(b.subrange(i + 1, k) =~= b.subrange(i, k).drop_first());
        }
    }
}

/// Byte order, the order the backups are sorted in, is lexicographic order over all the bytes
/// of the names: `a` comes before `b` exactly when they agree on their first `k` bytes and then
/// `a`'s byte `k` is the smaller one, or `a` ends after those `k` bytes while `b` goes on.
pub proof fn law_byte_order_is_lexicographic(a: Seq<u8>, b: Seq<u8>)
    ensures
        bytes_before(a, b) <==> exists|k: int|
            #![trigger a.take(k)]
            0 <= k <= a.len() && k <= b.len() && a.take(k) == b.take(k) && ((k < a.len() && k < b.len() && a[k]
                < b[k]) || (k == a.len() && k < b.len())),
{
    lemma_before_from_lexicographic(a, b, 0);
    if bytes_before(a, b) {
        let k = choose|k: int|
            #![trigger a.subrange(0, k)]
            0 <= k <= a.len() && k <= b.len() && a.subrange(0, k) == b.subrange(0, k) && ((k < a.len() && k
                < b.len() && a[k] < b[k]) || (k == a.len() && k < b.len()));
        assert(a.take(k) == a.subrange(0, k));
    }
    if exists|k: int|
        #![trigger a.take(k)]
        0 <= k <= a.len() && k <= b.len() && a.take(k) == b.take(k) && ((k < a.len() && k < b.len() && a[k]
            < b[k]) || (k == a.len() && k < b.len())) {
        let k = choose|k: int|
            #![trigger a.take(k)]
            0 <= k <= a.len() && k <= b.len() && a.take(k) == b.take(k) && ((k < a.len() && k < b.len() && a[k]
                < b[k]) || (k == a.len() && k < b.len()));
        assert(a.subrange(0, k) == a.take(k));
    }
}

/// Byte order is total: of two different names, one comes before the other.
proof fn lemma_bytes_before_total(a: Seq<u8>, b: Seq<u8>, i: int)
    requires
        0 <= i,
        a.skip(i) != b.skip(i),
        i <= a.len(),
        i <= b.len(),
    ensures
        bytes_before_from(a, b, i) || bytes_before_from(b, a, i),
    decreases a.len() - i,
{
    if i == a.len() && i == b.len() {
        assert(a.skip(i) =~= b.skip(i));
    } else if i < a.len() && i < b.len() && a[i] == b[i] {
        if a.skip(i + 1) == b.skip(i + 1) {
            assert(a.skip(i) =~= seq![a[i]] + a.skip(i + 1));
            assert(b.skip(i) =~= seq![b[i]] + b.skip(i + 1));
        }
        lemma_bytes_before_total(a, b, i + 1);
    }
}

/// The backup that `oldest_backup` picks comes first in byte order: when no name comes before
/// the one at `i` (as `oldest_backup` ensures of its pick), every other name is that one or
/// comes after it in lexicographic order.
pub proof fn law_pick_is_first_in_byte_order(names: Seq<Seq<u8>>, i: int)
    requires
        0 <= i < names.len(),
        forall|j: int| 0 <= j < names.len() ==> !bytes_before(#[trigger] names[j], names[i]),
    ensures
        forall|j: int|
            0 <= j < names.len() ==> #[trigger] names[j] == names[i] || bytes_before(names[i], names[j]),
{
    assert forall|j: int| 0 <= j < names.len() implies #[trigger] names[j] == names[i] || bytes_before(
        names[i],
        names[j],
    ) by {
        if names[j] != names[i] {
            assert(names[j].skip(0) =~= names[j]);
            assert(names[i].skip(0) =~= names[i]);
            lemma_bytes_before_total(names[i], names[j], 0);
        }
    }
}

/// No name comes before itself.
proof fn lemma_bytes_before_irreflexive(a: Seq<u8>, i: int)
    requires
        0 <= i,
    ensures
        !bytes_before_from(a, a, i),
    decreases a.len() - i,
{
    if i < a.len() {
        lemma_bytes_before_irreflexive(a, i + 1);
    }
}

} // verus!





