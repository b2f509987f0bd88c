//! The field types that a generator's parameter list may declare, named as they are written in
//! its source.
use vstd::prelude::*;
use vstd::utf8::encode_utf8_decode_utf8;

verus! {

/// The type of a declared parameter.
#[derive(Debug, Clone, Copy, PartialEq, Eq, Structural)]
pub enum PropertyType {
    Signed,
    Unsigned,
    Float,
    Vec2,
    Vec3,
    Vec4,
    RgbColor,
    RgbaColor,
    Rotation,
    Reference,
}

/// The parameter type that a type name stands for.
pub open spec fn type_of_name(name: Seq<char>) -> Option<PropertyType> {
    if name == "i32"@ {
        Some(PropertyType::Signed)
    } else if name == "u32"@ {
        Some(PropertyType::Unsigned)
    } else if name == "f32"@ {
        Some(PropertyType::Float)
    } else if name == "Vector2"@ {
        Some(PropertyType::Vec2)
    } else if name == "Vector3"@ {
        Some(PropertyType::Vec3)
    } else if name == "Vector4"@ {
        Some(PropertyType::Vec4)
    } else if name == "RgbColor"@ {
        Some(PropertyType::RgbColor)
    } else if name == "RgbaColor"@ {
        Some(PropertyType::RgbaColor)
    } else if name == "Quaternion"@ {
        Some(PropertyType::Rotation)
    } else if name == "ListRef"@ {
        Some(PropertyType::Reference)
    } else {
        None
    }
}

/// Whether two strings hold the same characters, compared through their UTF-8 bytes.
pub(crate) fn same_text(a: &str, b: &str) -> (r: bool)
    ensures
        r == (a@ == b@),
{
    let x = a.as_bytes();
    let y = b.as_bytes();
    let mut same = x.len() == y.len();
    if same {
        let mut i: usize = 0;
        while i < x.len()
            invariant_except_break
                same,
            invariant
                x@.len() == y@.len(),
                i <= x@.len(),
                forall|j: int| 0 <= j < i ==> x@[j] == y@[j],
            ensures
                same == (forall|j: int| 0 <= j < x@.len() ==> x@[j] == y@[j]),
            decreases x@.len() - i,
        {
            if x[i] != y[i] {
                same = false;
                break;
            }
            i = i + 1;
        }
        proof {
            if same {
                assert(x@ =~= y@);
            } else {
                assert(x@ != y@);
            }
        }
    }
    proof {
        encode_utf8_decode_utf8(a@);
        encode_utf8_decode_utf8(b@);
    }
    same
}

impl PropertyType {
    /// The parameter type named `ty`, or `None` for a name that is not a parameter type.
    pub fn from_type_str(ty: &str) -> (r: Option<PropertyType>)
        ensures
            r == type_of_name(ty@),
    {
        if same_text(ty, "i32") {
            Some(PropertyType::Signed)
        } else if same_text(ty, "u32") {
            Some(PropertyType::Unsigned)
        } else if same_text(ty, "f32") {
            Some(PropertyType::Float)
        } else if same_text(ty, "Vector2") {
            Some(PropertyType::Vec2)
        } else if same_text(ty, "Vector3") {
            Some(PropertyType::Vec3)
        } else if same_text(ty, "Vector4") {
            Some(PropertyType::Vec4)
        } else if same_text(ty, "RgbColor") {
            Some(PropertyType::RgbColor)
        } else if same_text(ty, "RgbaColor") {
            Some(PropertyType::RgbaColor)
        } else if same_text(ty, "Quaternion") {
            Some(PropertyType::Rotation)
        } else if same_text(ty, "ListRef") {
            Some(PropertyType::Reference)
        } else {
            None
        }
    }
}

} // verus!
