//! The schema that a generator's parameter list declares: from the list's fields, in order, the
//! editable properties, the pragmas that name some of them, the properties that refer to other
//! clips, and the transform fields that are edited as three properties.
//!
//! Each public field is a property of its type (see `type_of_name`), except a `Matrix4` field,
//! which is edited as three: its translation (`Vec3`), rotation (`Rotation`) and scale
//! (`Vec3`). A field's `pragma` names its property; on a `Matrix4` field the pragma `transform`
//! names its three properties `translation`, `rotation` and `scale`, and any other pragma is
//! ignored. A property of type `Reference` is a dependency. Private fields are skipped, and a
//! public field of any other type makes the list invalid.
use vstd::prelude::*;
use crate::param_types::{PropertyType, same_text, type_of_name};

verus! {

/// A field of a parameter list as declared: its name, the name of its type, whether it is
/// public, and the argument of its `pragma` attribute, if it has one.
pub struct FieldDesc {
    pub name: String,
    pub ty_name: String,
    pub is_public: bool,
    pub pragma: Option<String>,
}

/// Which part of its field a property edits.
#[derive(Debug, Clone, Copy, PartialEq, Eq, Structural)]
pub enum FieldPart {
    /// The whole field, named as the field.
    Whole,
    /// The translation of a transform field, named `<field>.translate`.
    Translate,
    /// The rotation of a transform field, named `<field>.rotate`.
    Rotate,
    /// The scale of a transform field, named `<field>.scale`.
    Scale,
}

/// An editable property: the index of its field, the part of the field it edits, its type.
#[derive(Debug, Clone, Copy, PartialEq, Eq, Structural)]
pub struct SchemaProperty {
    pub field: usize,
    pub part: FieldPart,
    pub ty: PropertyType,
}

/// A pragma: its name and the index of the property it names.
pub struct SchemaPragma {
    pub name: String,
    pub property: usize,
}

/// The schema of a parameter list.
pub struct ParamSchema {
    pub properties: Vec<SchemaProperty>,
    pub pragmas: Vec<SchemaPragma>,
    /// The indices of the properties that refer to other clips.
    pub dependencies: Vec<usize>,
    /// The indices of the transform fields; each one's three properties stand together.
    pub transforms: Vec<usize>,
}

/// A field edited as a transform.
pub open spec fn is_transform(f: FieldDesc) -> bool {
    f.ty_name@ == "Matrix4"@
}

/// The properties that field `f`, at index `i`, declares.
pub open spec fn field_properties(f: FieldDesc, i: int) -> Seq<SchemaProperty> {
    if !f.is_public {
        Seq::empty()
    } else if is_transform(f) {
        seq![
            SchemaProperty { field: i as usize, part: FieldPart::Translate, ty: PropertyType::Vec3 },
            SchemaProperty { field: i as usize, part: FieldPart::Rotate, ty: PropertyType::Rotation },
            SchemaProperty { field: i as usize, part: FieldPart::Scale, ty: PropertyType::Vec3 },
        ]
    } else {
        match type_of_name(f.ty_name@) {
            Some(t) => seq![SchemaProperty { field: i as usize, part: FieldPart::Whole, ty: t }],
            None => Seq::empty(),
        }
    }
}

/// The properties that the first `n` fields declare, in order.
pub open spec fn properties_upto(fs: Seq<FieldDesc>, n: int) -> Seq<SchemaProperty>
    decreases n,
{
    if n <= 0 {
        Seq::empty()
    } else {
        properties_upto(fs, n - 1) + field_properties(fs[n - 1], n - 1)
    }
}

/// The pragmas (name, property index) of field `f`, whose first property has index `base`.
pub open spec fn field_pragmas(f: FieldDesc, base: int) -> Seq<(Seq<char>, int)> {
    if !f.is_public {
        Seq::empty()
    } else if is_transform(f) {
        if f.pragma matches Some(p) && p@ == "transform"@ {
            seq![("translation"@, base), ("rotation"@, base + 1), ("scale"@, base + 2)]
        } else {
            Seq::empty()
        }
    } else if type_of_name(f.ty_name@) is Some && f.pragma is Some {
        seq![(f.pragma->Some_0@, base)]
    } else {
        Seq::empty()
    }
}

/// The pragmas that the first `n` fields declare, in order.
pub open spec fn pragmas_upto(fs: Seq<FieldDesc>, n: int) -> Seq<(Seq<char>, int)>
    decreases n,
{
    if n <= 0 {
        Seq::empty()
    } else {
        pragmas_upto(fs, n - 1) + field_pragmas(fs[n - 1], properties_upto(fs, n - 1).len() as int)
    }
}

/// The dependencies (property indices) that the first `n` fields declare, in order.
pub open spec fn dependencies_upto(fs: Seq<FieldDesc>, n: int) -> Seq<int>
    decreases n,
{
    if n <= 0 {
        Seq::empty()
    } else if fs[n - 1].is_public && !is_transform(fs[n - 1]) && type_of_name(fs[n - 1].ty_name@)
        == Some(PropertyType::Reference) {
        dependencies_upto(fs, n - 1).push(properties_upto(fs, n - 1).len() as int)
    } else {
        dependencies_upto(fs, n - 1)
    }
}

/// The transform fields among the first `n`, in order.
pub open spec fn transforms_upto(fs: Seq<FieldDesc>, n: int) -> Seq<int>
    decreases n,
{
    if n <= 0 {
        Seq::empty()
    } else if fs[n - 1].is_public && is_transform(fs[n - 1]) {
        transforms_upto(fs, n - 1).push(n - 1)
    } else {
        transforms_upto(fs, n - 1)
    }
}

/// A public field whose type is no parameter type.
pub open spec fn is_invalid(f: FieldDesc) -> bool {
    f.is_public && !is_transform(f) && type_of_name(f.ty_name@) is None
}

/// The pragmas, as (name, property index).
pub open spec fn pragmas_view(ps: Seq<SchemaPragma>) -> Seq<(Seq<char>, int)> {
    ps.map_values(|p: SchemaPragma| (p.name@, p.property as int))
}

/// Indices, as integers.
pub open spec fn indices_view(v: Seq<usize>) -> Seq<int> {
    v.map_values(|x: usize| x as int)
}

/// Reads the schema that a parameter list declares from its fields (see the module's text).
/// Returns `Err(i)` when field `i` is the first public field whose type is no parameter type,
/// else the schema.
pub fn schema_from_fields(fields: &Vec<FieldDesc>) -> (r: Result<ParamSchema, usize>)
    requires
        fields@.len() <= usize::MAX / 4,
    ensures
        match r {
            Err(i) => i < fields@.len() && is_invalid(fields@[i as int]) && forall|j: int|
                0 <= j < i ==> !is_invalid(#[trigger] fields@[j]),
            Ok(s) => {
                &&& forall|j: int| 0 <= j < fields@.len() ==> !is_invalid(#[trigger] fields@[j])
                &&& s.properties@ == properties_upto(fields@, fields@.len() as int)
                &&& pragmas_view(s.pragmas@) == pragmas_upto(fields@, fields@.len() as int)
                &&& indices_view(s.dependencies@) == dependencies_upto(fields@, fields@.len() as int)
                &&& indices_view(s.transforms@) == transforms_upto(fields@, fields@.len() as int)
            },
        },
{
    let ghost fs = fields@;
    let mut properties: Vec<SchemaProperty> = Vec::new();
    let mut pragmas: Vec<SchemaPragma> = Vec::new();
    let mut dependencies: Vec<usize> = Vec::new();
    let mut transforms: Vec<usize> = Vec::new();
    let mut i: usize = 0;
    while i < fields.len()
        invariant
            fs == fields@,
            fs.len() <= usize::MAX / 4,
            i <= fs.len(),
            properties@ == properties_upto(fs, i as int),
            properties@.len() <= 3 * i,
            pragmas_view(pragmas@) == pragmas_upto(fs, i as int),
            indices_view(dependencies@) == dependencies_upto(fs, i as int),
            indices_view(transforms@) == transforms_upto(fs, i as int),
            forall|j: int| 0 <= j < i ==> !is_invalid(#[trigger] fs[j]),
        decreases fs.len() - i,
    {
        let f = &fields[i];
        let base = properties.len();
        let ghost before_pragmas = pragmas@;
        let ghost before_deps = dependencies@;
        let ghost before_transforms = transforms@;
        if f.is_public {
            if same_text(f.ty_name.as_str(), "Matrix4") {
                let transform_pragma = match &f.pragma {
                    Some(p) => same_text(p.as_str(), "transform"),
                    None => false,
                };
                if transform_pragma {
                    pragmas.push(SchemaPragma { name: "translation".to_owned(), property: base });
                    pragmas.push(SchemaPragma { name: "rotation".to_owned(), property: base + 1 });
                    pragmas.push(SchemaPragma { name: "scale".to_owned(), property: base + 2 });
                    proof {
                        assert(pragmas_view(pragmas@) =~= pragmas_view(before_pragmas) + field_pragmas(
                            fs[i as int],
                            base as int,
                        ));
                    }
                } else {
                    assert(pragmas_view(pragmas@) =~= pragmas_view(before_pragmas) + field_pragmas(
                        fs[i as int],
                        base as int,
                    ));
                }
                properties.push(SchemaProperty { field: i, part: FieldPart::Translate, ty: PropertyType::Vec3 });
                properties.push(SchemaProperty { field: i, part: FieldPart::Rotate, ty: PropertyType::Rotation });
                properties.push(SchemaProperty { field: i, part: FieldPart::Scale, ty: PropertyType::Vec3 });
                transforms.push(i);
                proof {
                    assert(indices_view(transforms@) =~= indices_view(before_transforms).push(i as int));
                    assert(indices_view(dependencies@) == dependencies_upto(fs, i + 1));
                }
            } else {
                match PropertyType::from_type_str(f.ty_name.as_str()) {
                    None => {
                        return Err(i);
                    },
                    Some(ty) => {
                        if ty == PropertyType::Reference {
                            dependencies.push(base);
                            proof {
                                assert(indices_view(dependencies@) =~= indices_view(before_deps).push(base as int));
                            }
                        }
                        match &f.pragma {
                            Some(p) => {
                                pragmas.push(SchemaPragma { name: p.clone(), property: base });
                                proof {
                                    assert(pragmas_view(pragmas@) =~= pragmas_view(before_pragmas) + field_pragmas(
                                        fs[i as int],
                                        base as int,
                                    ));
                                }
                            },
                            None => {
                                assert(pragmas_view(pragmas@) =~= pragmas_view(before_pragmas) + field_pragmas(
                                    fs[i as int],
                                    base as int,
                                ));
                            },
                        }
                        properties.push(SchemaProperty { field: i, part: FieldPart::Whole, ty });
                    },
                }
            }
        } else {
            assert(pragmas_view(pragmas@) =~= pragmas_view(before_pragmas) + field_pragmas(fs[i as int], base as int));
        }
        proof {
            assert(properties@ =~= properties_upto(fs, i + 1));
            assert(pragmas_view(pragmas@) =~= pragmas_upto(fs, i + 1));
            assert(indices_view(dependencies@) =~= dependencies_upto(fs, i + 1));
            assert(indices_view(transforms@) =~= transforms_upto(fs, i + 1));
        }
        i = i + 1;
    }
    Ok(ParamSchema { properties, pragmas, dependencies, transforms })
}

} // verus!
