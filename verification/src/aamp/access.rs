//! Reading and taking the values of parameters, and the maps that hold them.
use vstd::prelude::*;
use vstd::string::StringSliceAdditionalSpecFns;
use crate::{Error, Result};
use crate::types::FixedSafeString;
use super::Name;
use super::param::{
    param_view, Color, Curve, Parameter, ParameterIO, ParameterList, ParameterObject, Quat,
    Vector2f, Vector3f, Vector4f,
};

verus! {

/// The name of each parameter type, by its type code.
pub open spec fn param_type_name(code: u8) -> Seq<char> {
    if code == 0 {
        "Bool"@
    } else if code == 1 {
        "F32"@
    } else if code == 2 {
        "Int"@
    } else if code == 3 {
        "Vec2"@
    } else if code == 4 {
        "Vec3"@
    } else if code == 5 {
        "Vec4"@
    } else if code == 6 {
        "Color"@
    } else if code == 7 {
        "String32"@
    } else if code == 8 {
        "String64"@
    } else if code == 9 {
        "Curve1"@
    } else if code == 10 {
        "Curve2"@
    } else if code == 11 {
        "Curve3"@
    } else if code == 12 {
        "Curve4"@
    } else if code == 13 {
        "BufferInt"@
    } else if code == 14 {
        "BufferF32"@
    } else if code == 15 {
        "String256"@
    } else if code == 16 {
        "Quat"@
    } else if code == 17 {
        "U32"@
    } else if code == 18 {
        "BufferU32"@
    } else if code == 19 {
        "BufferBinary"@
    } else if code == 20 {
        "StringRef"@
    } else {
        "StringRef"@
    }
}

/// The AAMP parameter type table, as the format fixes it: each type code
/// from 0 to 20 belongs to exactly one kind of parameter (0 Bool, 1 F32,
/// 2 Int, 3 Vec2, 4 Vec3, 5 Vec4, 6 Color, 7 String32, 8 String64,
/// 9 to 12 Curve1 to Curve4, 13 BufferInt, 14 BufferF32, 15 String256,
/// 16 Quat, 17 U32, 18 BufferU32, 19 BufferBinary, 20 StringRef), and each
/// code has its type's name.
pub proof fn parameter_type_table(p: Parameter)
    ensures
        (p is Bool) <==> param_view(p).0 == 0,
        (p is F32) <==> param_view(p).0 == 1,
        (p is Int) <==> param_view(p).0 == 2,
        (p is Vec2) <==> param_view(p).0 == 3,
        (p is Vec3) <==> param_view(p).0 == 4,
        (p is Vec4) <==> param_view(p).0 == 5,
        (p is Color) <==> param_view(p).0 == 6,
        (p is String32) <==> param_view(p).0 == 7,
        (p is String64) <==> param_view(p).0 == 8,
        (p is Curve1) <==> param_view(p).0 == 9,
        (p is Curve2) <==> param_view(p).0 == 10,
        (p is Curve3) <==> param_view(p).0 == 11,
        (p is Curve4) <==> param_view(p).0 == 12,
        (p is BufferInt) <==> param_view(p).0 == 13,
        (p is BufferF32) <==> param_view(p).0 == 14,
        (p is String256) <==> param_view(p).0 == 15,
        (p is Quat) <==> param_view(p).0 == 16,
        (p is U32) <==> param_view(p).0 == 17,
        (p is BufferU32) <==> param_view(p).0 == 18,
        (p is BufferBinary) <==> param_view(p).0 == 19,
        (p is StringRef) <==> param_view(p).0 == 20,
        param_type_name(0) == "Bool"@,
        param_type_name(1) == "F32"@,
        param_type_name(2) == "Int"@,
        param_type_name(3) == "Vec2"@,
        param_type_name(4) == "Vec3"@,
        param_type_name(5) == "Vec4"@,
        param_type_name(6) == "Color"@,
        param_type_name(7) == "String32"@,
        param_type_name(8) == "String64"@,
        param_type_name(9) == "Curve1"@,
        param_type_name(10) == "Curve2"@,
        param_type_name(11) == "Curve3"@,
        param_type_name(12) == "Curve4"@,
        param_type_name(13) == "BufferInt"@,
        param_type_name(14) == "BufferF32"@,
        param_type_name(15) == "String256"@,
        param_type_name(16) == "Quat"@,
        param_type_name(17) == "U32"@,
        param_type_name(18) == "BufferU32"@,
        param_type_name(19) == "BufferBinary"@,
        param_type_name(20) == "StringRef"@,
        param_view(p).0 <= 20,
{
}

/// The error for a parameter that is not of the expected type.
pub open spec fn param_type_error(p: &Parameter, expected: Seq<char>, e: Error) -> bool {
    e matches Error::TypeError(found, exp) && found@ == param_type_name(param_view(*p).0)
        && exp@ == expected
}

impl Parameter {
    /// The type code of the parameter.
    pub fn type_code(&self) -> (r: u8)
        ensures
            r == param_view(*self).0,
    {
        match self {
            Parameter::Bool(_) => 0,
            Parameter::F32(_) => 1,
            Parameter::Int(_) => 2,
            Parameter::Vec2(_) => 3,
            Parameter::Vec3(_) => 4,
            Parameter::Vec4(_) => 5,
            Parameter::Color(_) => 6,
            Parameter::String32(_) => 7,
            Parameter::String64(_) => 8,
            Parameter::Curve1(_) => 9,
            Parameter::Curve2(_) => 10,
            Parameter::Curve3(_) => 11,
            Parameter::Curve4(_) => 12,
            Parameter::BufferInt(_) => 13,
            Parameter::BufferF32(_) => 14,
            Parameter::String256(_) => 15,
            Parameter::Quat(_) => 16,
            Parameter::U32(_) => 17,
            Parameter::BufferU32(_) => 18,
            Parameter::BufferBinary(_) => 19,
            Parameter::StringRef(_) => 20,
        }
    }

    /// The name of the parameter's type.
    pub fn param_type_name(&self) -> (r: String)
        ensures
            r@ == param_type_name(param_view(*self).0),
    {
        let s: &str = match self {
            Parameter::Bool(_) => "Bool",
            Parameter::F32(_) => "F32",
            Parameter::Int(_) => "Int",
            Parameter::Vec2(_) => "Vec2",
            Parameter::Vec3(_) => "Vec3",
            Parameter::Vec4(_) => "Vec4",
            Parameter::Color(_) => "Color",
            Parameter::String32(_) => "String32",
            Parameter::String64(_) => "String64",
            Parameter::Curve1(_) => "Curve1",
            Parameter::Curve2(_) => "Curve2",
            Parameter::Curve3(_) => "Curve3",
            Parameter::Curve4(_) => "Curve4",
            Parameter::BufferInt(_) => "BufferInt",
            Parameter::BufferF32(_) => "BufferF32",
            Parameter::String256(_) => "String256",
            Parameter::Quat(_) => "Quat",
            Parameter::U32(_) => "U32",
            Parameter::BufferU32(_) => "BufferU32",
            Parameter::BufferBinary(_) => "BufferBinary",
            Parameter::StringRef(_) => "StringRef",
        };
        s.to_owned()
    }

    /// Whether the parameter is a buffer.
    pub fn is_buffer_type(&self) -> (r: bool)
        ensures
            r == (*self is BufferInt || *self is BufferF32 || *self is BufferU32
                || *self is BufferBinary),
    {
        match self {
            Parameter::BufferInt(_) | Parameter::BufferF32(_) | Parameter::BufferU32(_)
            | Parameter::BufferBinary(_) => true,
            _ => false,
        }
    }

    /// Whether the parameter is a string.
    pub fn is_string_type(&self) -> (r: bool)
        ensures
            r == (*self is String32 || *self is String64 || *self is String256
                || *self is StringRef),
    {
        match self {
            Parameter::String32(_) | Parameter::String64(_) | Parameter::String256(_)
            | Parameter::StringRef(_) => true,
            _ => false,
        }
    }

    /// The string of a parameter of any string type.
    pub fn as_str(&self) -> (r: Result<&str>)
        ensures
            r is Ok <==> self.is_string_type_spec(),
            r matches Ok(s) ==> match *self {
                Parameter::String32(f) => s.spec_bytes() == f@,
                Parameter::String64(f) => s.spec_bytes() == f@,
                Parameter::String256(f) => s.spec_bytes() == f@,
                Parameter::StringRef(t) => s@ == t@,
                _ => false,
            },
            r matches Err(e) ==> param_type_error(self, "a string type"@, e),
    {
        match self {
            Parameter::String32(s) => Ok(s.as_str()),
            Parameter::String64(s) => Ok(s.as_str()),
            Parameter::String256(s) => Ok(s.as_str()),
            Parameter::StringRef(s) => Ok(s.as_str()),
            _ => Err(Error::TypeError(self.param_type_name(), "a string type")),
        }
    }

    /// Whether the parameter is a string.
    pub open spec fn is_string_type_spec(&self) -> bool {
        *self is String32 || *self is String64 || *self is String256 || *self is StringRef
    }

    /// The inner Bool value.
    pub fn as_bool(&self) -> (r: Result<bool>)
        ensures
            r is Ok <==> *self is Bool,
            r matches Ok(v) ==> v == self->Bool_0,
            r matches Err(e) ==> param_type_error(self, "Bool"@, e),
    {
        match self {
            Parameter::Bool(v) => Ok(*v),
            _ => Err(Error::TypeError(self.param_type_name(), "Bool")),
        }
    }

    /// Extracts the inner Bool value.
    pub fn into_bool(self) -> (r: Result<bool>)
        ensures
            r is Ok <==> self is Bool,
            r matches Ok(v) ==> v == self->Bool_0,
            r matches Err(e) ==> param_type_error(&self, "bool"@, e),
    {
        match self {
            Parameter::Bool(v) => Ok(v),
            _ => Err(Error::TypeError(self.param_type_name(), "bool")),
        }
    }

    /// The inner F32 value.
    pub fn as_f32(&self) -> (r: Result<u32>)
        ensures
            r is Ok <==> *self is F32,
            r matches Ok(v) ==> v == self->F32_0,
            r matches Err(e) ==> param_type_error(self, "F32"@, e),
    {
        match self {
            Parameter::F32(v) => Ok(*v),
            _ => Err(Error::TypeError(self.param_type_name(), "F32")),
        }
    }

    /// Extracts the inner F32 value.
    pub fn into_f32(self) -> (r: Result<u32>)
        ensures
            r is Ok <==> self is F32,
            r matches Ok(v) ==> v == self->F32_0,
            r matches Err(e) ==> param_type_error(&self, "f32"@, e),
    {
        match self {
            Parameter::F32(v) => Ok(v),
            _ => Err(Error::TypeError(self.param_type_name(), "f32")),
        }
    }

    /// The inner Int value.
    pub fn as_int(&self) -> (r: Result<i32>)
        ensures
            r is Ok <==> *self is Int,
            r matches Ok(v) ==> v == self->Int_0,
            r matches Err(e) ==> param_type_error(self, "Int"@, e),
    {
        match self {
            Parameter::Int(v) => Ok(*v),
            _ => Err(Error::TypeError(self.param_type_name(), "Int")),
        }
    }

    /// Extracts the inner Int value.
    pub fn into_int(self) -> (r: Result<i32>)
        ensures
            r is Ok <==> self is Int,
            r matches Ok(v) ==> v == self->Int_0,
            r matches Err(e) ==> param_type_error(&self, "i32"@, e),
    {
        match self {
            Parameter::Int(v) => Ok(v),
            _ => Err(Error::TypeError(self.param_type_name(), "i32")),
        }
    }

    /// The inner Vec2 value.
    pub fn as_vec2(&self) -> (r: Result<&Vector2f>)
        ensures
            r is Ok <==> *self is Vec2,
            r matches Ok(v) ==> *v == self->Vec2_0,
            r matches Err(e) ==> param_type_error(self, "Vec2"@, e),
    {
        match self {
            Parameter::Vec2(v) => Ok(v),
            _ => Err(Error::TypeError(self.param_type_name(), "Vec2")),
        }
    }

    /// Extracts the inner Vec2 value.
    pub fn into_vec2(self) -> (r: Result<Vector2f>)
        ensures
            r is Ok <==> self is Vec2,
            r matches Ok(v) ==> v == self->Vec2_0,
            r matches Err(e) ==> param_type_error(&self, "vec2"@, e),
    {
        match self {
            Parameter::Vec2(v) => Ok(v),
            _ => Err(Error::TypeError(self.param_type_name(), "vec2")),
        }
    }

    /// The inner Vec3 value.
    pub fn as_vec3(&self) -> (r: Result<&Vector3f>)
        ensures
            r is Ok <==> *self is Vec3,
            r matches Ok(v) ==> *v == self->Vec3_0,
            r matches Err(e) ==> param_type_error(self, "Vec3"@, e),
    {
        match self {
            Parameter::Vec3(v) => Ok(v),
            _ => Err(Error::TypeError(self.param_type_name(), "Vec3")),
        }
    }

    /// Extracts the inner Vec3 value.
    pub fn into_vec3(self) -> (r: Result<Vector3f>)
        ensures
            r is Ok <==> self is Vec3,
            r matches Ok(v) ==> v == self->Vec3_0,
            r matches Err(e) ==> param_type_error(&self, "vec3"@, e),
    {
        match self {
            Parameter::Vec3(v) => Ok(v),
            _ => Err(Error::TypeError(self.param_type_name(), "vec3")),
        }
    }

    /// The inner Vec4 value.
    pub fn as_vec4(&self) -> (r: Result<&Vector4f>)
        ensures
            r is Ok <==> *self is Vec4,
            r matches Ok(v) ==> *v == self->Vec4_0,
            r matches Err(e) ==> param_type_error(self, "Vec4"@, e),
    {
        match self {
            Parameter::Vec4(v) => Ok(v),
            _ => Err(Error::TypeError(self.param_type_name(), "Vec4")),
        }
    }

    /// Extracts the inner Vec4 value.
    pub fn into_vec4(self) -> (r: Result<Vector4f>)
        ensures
            r is Ok <==> self is Vec4,
            r matches Ok(v) ==> v == self->Vec4_0,
            r matches Err(e) ==> param_type_error(&self, "vec4"@, e),
    {
        match self {
            Parameter::Vec4(v) => Ok(v),
            _ => Err(Error::TypeError(self.param_type_name(), "vec4")),
        }
    }

    /// The inner BufferF32 value.
    pub fn as_buffer_f32(&self) -> (r: Result<&[u32]>)
        ensures
            r is Ok <==> *self is BufferF32,
            r matches Ok(v) ==> v@ == self->BufferF32_0@,
            r matches Err(e) ==> param_type_error(self, "BufferF32"@, e),
    {
        match self {
            Parameter::BufferF32(v) => Ok(v.as_slice()),
            _ => Err(Error::TypeError(self.param_type_name(), "BufferF32")),
        }
    }

    /// Extracts the inner BufferF32 value.
    pub fn into_buffer_f32(self) -> (r: Result<Vec<u32>>)
        ensures
            r is Ok <==> self is BufferF32,
            r matches Ok(v) ==> v == self->BufferF32_0,
            r matches Err(e) ==> param_type_error(&self, "Vec<f32>"@, e),
    {
        match self {
            Parameter::BufferF32(v) => Ok(v),
            _ => Err(Error::TypeError(self.param_type_name(), "Vec<f32>")),
        }
    }

    /// The inner BufferInt value.
    pub fn as_buffer_int(&self) -> (r: Result<&[i32]>)
        ensures
            r is Ok <==> *self is BufferInt,
            r matches Ok(v) ==> v@ == self->BufferInt_0@,
            r matches Err(e) ==> param_type_error(self, "BufferI32"@, e),
    {
        match self {
            Parameter::BufferInt(v) => Ok(v.as_slice()),
            _ => Err(Error::TypeError(self.param_type_name(), "BufferI32")),
        }
    }

    /// Extracts the inner BufferInt value.
    pub fn into_buffer_int(self) -> (r: Result<Vec<i32>>)
        ensures
            r is Ok <==> self is BufferInt,
            r matches Ok(v) ==> v == self->BufferInt_0,
            r matches Err(e) ==> param_type_error(&self, "Vec<i32>"@, e),
    {
        match self {
            Parameter::BufferInt(v) => Ok(v),
            _ => Err(Error::TypeError(self.param_type_name(), "Vec<i32>")),
        }
    }

    /// The inner Color value.
    pub fn as_color(&self) -> (r: Result<&Color>)
        ensures
            r is Ok <==> *self is Color,
            r matches Ok(v) ==> *v == self->Color_0,
            r matches Err(e) ==> param_type_error(self, "Color"@, e),
    {
        match self {
            Parameter::Color(v) => Ok(v),
            _ => Err(Error::TypeError(self.param_type_name(), "Color")),
        }
    }

    /// Extracts the inner Color value.
    pub fn into_color(self) -> (r: Result<Color>)
        ensures
            r is Ok <==> self is Color,
            r matches Ok(v) ==> v == self->Color_0,
            r matches Err(e) ==> param_type_error(&self, "color"@, e),
    {
        match self {
            Parameter::Color(v) => Ok(v),
            _ => Err(Error::TypeError(self.param_type_name(), "color")),
        }
    }

    /// The inner String32 value.
    pub fn as_string32(&self) -> (r: Result<&FixedSafeString<32>>)
        ensures
            r is Ok <==> *self is String32,
            r matches Ok(v) ==> *v == self->String32_0,
            r matches Err(e) ==> param_type_error(self, "String32"@, e),
    {
        match self {
            Parameter::String32(v) => Ok(v),
            _ => Err(Error::TypeError(self.param_type_name(), "String32")),
        }
    }

    /// Extracts the inner String32 value.
    pub fn into_string32(self) -> (r: Result<FixedSafeString<32>>)
        ensures
            r is Ok <==> self is String32,
            r matches Ok(v) ==> v == self->String32_0,
            r matches Err(e) ==> param_type_error(&self, "FixedSafeString<32>"@, e),
    {
        match self {
            Parameter::String32(v) => Ok(v),
            _ => Err(Error::TypeError(self.param_type_name(), "FixedSafeString<32>")),
        }
    }

    /// The inner String64 value.
    pub fn as_string64(&self) -> (r: Result<&FixedSafeString<64>>)
        ensures
            r is Ok <==> *self is String64,
            r matches Ok(v) ==> *v == self->String64_0,
            r matches Err(e) ==> param_type_error(self, "String64"@, e),
    {
        match self {
            Parameter::String64(v) => Ok(v),
            _ => Err(Error::TypeError(self.param_type_name(), "String64")),
        }
    }

    /// Extracts the inner String64 value.
    pub fn into_string64(self) -> (r: Result<FixedSafeString<64>>)
        ensures
            r is Ok <==> self is String64,
            r matches Ok(v) ==> v == self->String64_0,
            r matches Err(e) ==> param_type_error(&self, "FixedSafeString<64>"@, e),
    {
        match self {
            Parameter::String64(v) => Ok(v),
            _ => Err(Error::TypeError(self.param_type_name(), "FixedSafeString<64>")),
        }
    }

    /// The inner String256 value.
    pub fn as_string256(&self) -> (r: Result<&FixedSafeString<256>>)
        ensures
            r is Ok <==> *self is String256,
            r matches Ok(v) ==> *v == self->String256_0,
            r matches Err(e) ==> param_type_error(self, "String256"@, e),
    {
        match self {
            Parameter::String256(v) => Ok(v),
            _ => Err(Error::TypeError(self.param_type_name(), "String256")),
        }
    }

    /// Extracts the inner String256 value.
    pub fn into_string256(self) -> (r: Result<FixedSafeString<256>>)
        ensures
            r is Ok <==> self is String256,
            r matches Ok(v) ==> v == self->String256_0,
            r matches Err(e) ==> param_type_error(&self, "FixedSafeString<256>"@, e),
    {
        match self {
            Parameter::String256(v) => Ok(v),
            _ => Err(Error::TypeError(self.param_type_name(), "FixedSafeString<256>")),
        }
    }

    /// The inner Curve1 value.
    pub fn as_curve1(&self) -> (r: Result<&[Curve]>)
        ensures
            r is Ok <==> *self is Curve1,
            r matches Ok(v) ==> v@ == self->Curve1_0@,
            r matches Err(e) ==> param_type_error(self, "Curve1"@, e),
    {
        match self {
            Parameter::Curve1(v) => Ok(v.as_slice()),
            _ => Err(Error::TypeError(self.param_type_name(), "Curve1")),
        }
    }

    /// Extracts the inner Curve1 value.
    pub fn into_curve1(self) -> (r: Result<Vec<Curve>>)
        ensures
            r is Ok <==> self is Curve1,
            r matches Ok(v) ==> v == self->Curve1_0,
            r matches Err(e) ==> param_type_error(&self, "[Curve; 1]"@, e),
    {
        match self {
            Parameter::Curve1(v) => Ok(v),
            _ => Err(Error::TypeError(self.param_type_name(), "[Curve; 1]")),
        }
    }

    /// The inner Curve2 value.
    pub fn as_curve2(&self) -> (r: Result<&[Curve]>)
        ensures
            r is Ok <==> *self is Curve2,
            r matches Ok(v) ==> v@ == self->Curve2_0@,
            r matches Err(e) ==> param_type_error(self, "Curve2"@, e),
    {
        match self {
            Parameter::Curve2(v) => Ok(v.as_slice()),
            _ => Err(Error::TypeError(self.param_type_name(), "Curve2")),
        }
    }

    /// Extracts the inner Curve2 value.
    pub fn into_curve2(self) -> (r: Result<Vec<Curve>>)
        ensures
            r is Ok <==> self is Curve2,
            r matches Ok(v) ==> v == self->Curve2_0,
            r matches Err(e) ==> param_type_error(&self, "[Curve; 2]"@, e),
    {
        match self {
            Parameter::Curve2(v) => Ok(v),
            _ => Err(Error::TypeError(self.param_type_name(), "[Curve; 2]")),
        }
    }

    /// The inner Curve3 value.
    pub fn as_curve3(&self) -> (r: Result<&[Curve]>)
        ensures
            r is Ok <==> *self is Curve3,
            r matches Ok(v) ==> v@ == self->Curve3_0@,
            r matches Err(e) ==> param_type_error(self, "Curve3"@, e),
    {
        match self {
            Parameter::Curve3(v) => Ok(v.as_slice()),
            _ => Err(Error::TypeError(self.param_type_name(), "Curve3")),
        }
    }

    /// Extracts the inner Curve3 value.
    pub fn into_curve3(self) -> (r: Result<Vec<Curve>>)
        ensures
            r is Ok <==> self is Curve3,
            r matches Ok(v) ==> v == self->Curve3_0,
            r matches Err(e) ==> param_type_error(&self, "[Curve; 3]"@, e),
    {
        match self {
            Parameter::Curve3(v) => Ok(v),
            _ => Err(Error::TypeError(self.param_type_name(), "[Curve; 3]")),
        }
    }

    /// The inner Curve4 value.
    pub fn as_curve4(&self) -> (r: Result<&[Curve]>)
        ensures
            r is Ok <==> *self is Curve4,
            r matches Ok(v) ==> v@ == self->Curve4_0@,
            r matches Err(e) ==> param_type_error(self, "Curve4"@, e),
    {
        match self {
            Parameter::Curve4(v) => Ok(v.as_slice()),
            _ => Err(Error::TypeError(self.param_type_name(), "Curve4")),
        }
    }

    /// Extracts the inner Curve4 value.
    pub fn into_curve4(self) -> (r: Result<Vec<Curve>>)
        ensures
            r is Ok <==> self is Curve4,
            r matches Ok(v) ==> v == self->Curve4_0,
            r matches Err(e) ==> param_type_error(&self, "[Curve; 4]"@, e),
    {
        match self {
            Parameter::Curve4(v) => Ok(v),
            _ => Err(Error::TypeError(self.param_type_name(), "[Curve; 4]")),
        }
    }

    /// The inner Quat value.
    pub fn as_quat(&self) -> (r: Result<&Quat>)
        ensures
            r is Ok <==> *self is Quat,
            r matches Ok(v) ==> *v == self->Quat_0,
            r matches Err(e) ==> param_type_error(self, "Quat"@, e),
    {
        match self {
            Parameter::Quat(v) => Ok(v),
            _ => Err(Error::TypeError(self.param_type_name(), "Quat")),
        }
    }

    /// Extracts the inner Quat value.
    pub fn into_quat(self) -> (r: Result<Quat>)
        ensures
            r is Ok <==> self is Quat,
            r matches Ok(v) ==> v == self->Quat_0,
            r matches Err(e) ==> param_type_error(&self, "Quat"@, e),
    {
        match self {
            Parameter::Quat(v) => Ok(v),
            _ => Err(Error::TypeError(self.param_type_name(), "Quat")),
        }
    }

    /// The inner U32 value.
    pub fn as_u32(&self) -> (r: Result<u32>)
        ensures
            r is Ok <==> *self is U32,
            r matches Ok(v) ==> v == self->U32_0,
            r matches Err(e) ==> param_type_error(self, "u32"@, e),
    {
        match self {
            Parameter::U32(v) => Ok(*v),
            _ => Err(Error::TypeError(self.param_type_name(), "u32")),
        }
    }

    /// Extracts the inner U32 value.
    pub fn into_u32(self) -> (r: Result<u32>)
        ensures
            r is Ok <==> self is U32,
            r matches Ok(v) ==> v == self->U32_0,
            r matches Err(e) ==> param_type_error(&self, "u32"@, e),
    {
        match self {
            Parameter::U32(v) => Ok(v),
            _ => Err(Error::TypeError(self.param_type_name(), "u32")),
        }
    }

    /// The inner BufferU32 value.
    pub fn as_buffer_u32(&self) -> (r: Result<&[u32]>)
        ensures
            r is Ok <==> *self is BufferU32,
            r matches Ok(v) ==> v@ == self->BufferU32_0@,
            r matches Err(e) ==> param_type_error(self, "BufferU32"@, e),
    {
        match self {
            Parameter::BufferU32(v) => Ok(v.as_slice()),
            _ => Err(Error::TypeError(self.param_type_name(), "BufferU32")),
        }
    }

    /// Extracts the inner BufferU32 value.
    pub fn into_buffer_u32(self) -> (r: Result<Vec<u32>>)
        ensures
            r is Ok <==> self is BufferU32,
            r matches Ok(v) ==> v == self->BufferU32_0,
            r matches Err(e) ==> param_type_error(&self, "Vec<u32>"@, e),
    {
        match self {
            Parameter::BufferU32(v) => Ok(v),
            _ => Err(Error::TypeError(self.param_type_name(), "Vec<u32>")),
        }
    }

    /// The inner BufferBinary value.
    pub fn as_buffer_binary(&self) -> (r: Result<&[u8]>)
        ensures
            r is Ok <==> *self is BufferBinary,
            r matches Ok(v) ==> v@ == self->BufferBinary_0@,
            r matches Err(e) ==> param_type_error(self, "BufferBinary"@, e),
    {
        match self {
            Parameter::BufferBinary(v) => Ok(v.as_slice()),
            _ => Err(Error::TypeError(self.param_type_name(), "BufferBinary")),
        }
    }

    /// Extracts the inner BufferBinary value.
    pub fn into_buffer_binary(self) -> (r: Result<Vec<u8>>)
        ensures
            r is Ok <==> self is BufferBinary,
            r matches Ok(v) ==> v == self->BufferBinary_0,
            r matches Err(e) ==> param_type_error(&self, "Vec<u8>"@, e),
    {
        match self {
            Parameter::BufferBinary(v) => Ok(v),
            _ => Err(Error::TypeError(self.param_type_name(), "Vec<u8>")),
        }
    }

    /// The inner StringRef value.
    pub fn as_string_ref(&self) -> (r: Result<&str>)
        ensures
            r is Ok <==> *self is StringRef,
            r matches Ok(v) ==> v@ == self->StringRef_0@,
            r matches Err(e) ==> param_type_error(self, "String"@, e),
    {
        match self {
            Parameter::StringRef(v) => Ok(v.as_str()),
            _ => Err(Error::TypeError(self.param_type_name(), "String")),
        }
    }

    /// Extracts the inner StringRef value.
    pub fn into_string_ref(self) -> (r: Result<String>)
        ensures
            r is Ok <==> self is StringRef,
            r matches Ok(v) ==> v == self->StringRef_0,
            r matches Err(e) ==> param_type_error(&self, "string"@, e),
    {
        match self {
            Parameter::StringRef(v) => Ok(v),
            _ => Err(Error::TypeError(self.param_type_name(), "string")),
        }
    }
}

/// Where the first entry with the name stands, from `j` on; the length
/// where there is none.
pub open spec fn first_named<V>(s: Seq<(Name, V)>, n: Name, j: int) -> int
    decreases s.len() - j,
{
    if j < 0 || j >= s.len() {
        s.len() as int
    } else if s[j].0 == n {
        j
    } else {
        first_named(s, n, j + 1)
    }
}

/// The value of the first entry with the name.
pub open spec fn named_get<V>(s: Seq<(Name, V)>, n: Name) -> Option<V> {
    let i = first_named(s, n, 0);
    if i < s.len() {
        Some(s[i].1)
    } else {
        None
    }
}

/// Setting the value of a name: the first entry with it takes the value,
/// or a new entry comes last.
pub open spec fn named_put<V>(s: Seq<(Name, V)>, n: Name, v: V) -> Seq<(Name, V)> {
    let i = first_named(s, n, 0);
    if i < s.len() {
        s.update(i, (n, v))
    } else {
        s.push((n, v))
    }
}

proof fn lemma_first_named_none<V>(s: Seq<(Name, V)>, n: Name, j: int)
    requires
        0 <= j <= s.len(),
        first_named(s, n, j) >= s.len(),
    ensures
        forall|k: int| j <= k < s.len() ==> s[k].0 != n,
    decreases s.len() - j,
{
    if j < s.len() {
        lemma_first_named_none(s, n, j + 1);
    }
}

/// Setting a name keeps the names of a map distinct, as those of the
/// insertion-ordered maps that parameter objects and lists are, and the
/// name then gives the value set.
pub proof fn named_put_keeps_names_distinct<V>(s: Seq<(Name, V)>, n: Name, v: V)
    requires
        crate::aamp::binary::names_distinct(s),
    ensures
        crate::aamp::binary::names_distinct(named_put(s, n, v)),
        named_get(named_put(s, n, v), n) == Some(v),
{
    let i = first_named(s, n, 0);
    lemma_first_named_range(s, n, 0);
    let t = named_put(s, n, v);
    if i >= s.len() {
        lemma_first_named_none(s, n, 0);
        assert(first_named(t, n, 0) == s.len()) by {
            lemma_first_named_skip(t, n, 0, s.len() as int);
        }
    } else {
        assert(first_named(t, n, 0) == i) by {
            lemma_first_named_skip(t, n, 0, i);
        }
    }
}

proof fn lemma_first_named_skip<V>(s: Seq<(Name, V)>, n: Name, j: int, i: int)
    requires
        0 <= j <= i < s.len(),
        s[i].0 == n,
        forall|k: int| j <= k < i ==> s[k].0 != n,
    ensures
        first_named(s, n, j) == i,
    decreases i - j,
{
    if j < i {
        lemma_first_named_skip(s, n, j + 1, i);
    }
}

/// Setting the values of names, one after another.
pub open spec fn named_put_all<V>(s: Seq<(Name, V)>, items: Seq<(Name, V)>) -> Seq<(Name, V)>
    decreases items.len(),
{
    if items.len() == 0 {
        s
    } else {
        named_put(named_put_all(s, items.drop_last()), items.last().0, items.last().1)
    }
}

proof fn lemma_first_named_range<V>(s: Seq<(Name, V)>, n: Name, j: int)
    requires
        0 <= j <= s.len(),
    ensures
        j <= first_named(s, n, j) <= s.len(),
        first_named(s, n, j) < s.len() ==> s[first_named(s, n, j)].0 == n,
    decreases s.len() - j,
{
    if j < s.len() && s[j].0 != n {
        lemma_first_named_range(s, n, j + 1);
    }
}

/// Where the first entry with the name stands; the length where there is
/// none.
fn find_named<V>(s: &Vec<(Name, V)>, n: Name) -> (r: usize)
    ensures
        r == first_named(s@, n, 0),
{
    let mut j: usize = 0;
    while j < s.len()
        invariant
            j <= s@.len(),
            first_named(s@, n, 0) == first_named(s@, n, j as int),
        decreases s@.len() - j,
    {
        if s[j].0 == n {
            return j;
        }
        j = j + 1;
    }
    j
}

/// The value of the first entry with the name.
fn get_named<V>(s: &Vec<(Name, V)>, n: Name) -> (r: Option<&V>)
    ensures
        r matches Some(x) ==> named_get(s@, n) == Some(*x),
        r is None <==> named_get(s@, n) is None,
{
    let i = find_named(s, n);
    proof {
        lemma_first_named_range(s@, n, 0);
    }
    if i < s.len() {
        Some(&s[i].1)
    } else {
        None
    }
}

/// Sets the value of a name.
fn put_named<V>(s: &mut Vec<(Name, V)>, n: Name, v: V)
    ensures
        final(s)@ == named_put(old(s)@, n, v),
{
    let i = find_named(s, n);
    proof {
        lemma_first_named_range(s@, n, 0);
    }
    if i < s.len() {
        s.set(i, (n, v));
    } else {
        s.push((n, v));
    }
}

/// The value of the first entry with the name, to change in place.
fn get_named_mut<V>(s: &mut Vec<(Name, V)>, n: Name) -> (r: Option<&mut V>)
    ensures
        match r {
            Some(x) => {
                let i = first_named(old(s)@, n, 0);
                &&& i < old(s)@.len()
                &&& named_get(old(s)@, n) == Some(*x)
                &&& final(s)@ == old(s)@.update(i, (n, *final(x)))
            },
            None => named_get(old(s)@, n) is None && final(s)@ == old(s)@,
        },
{
    let i = find_named(s, n);
    proof {
        lemma_first_named_range(s@, n, 0);
    }
    if i < s.len() {
        let e = &mut s[i];
        Some(&mut e.1)
    } else {
        None
    }
}

impl ParameterObject {
    /// An empty parameter object.
    pub fn new() -> (r: Self)
        ensures
            r.0@ == Seq::<(Name, Parameter)>::empty(),
    {
        ParameterObject(Vec::new())
    }

    /// The number of parameters.
    pub fn len(&self) -> (r: usize)
        ensures
            r == self.0@.len(),
    {
        self.0.len()
    }

    /// Whether there are no parameters.
    pub fn is_empty(&self) -> (r: bool)
        ensures
            r == (self.0@.len() == 0),
    {
        self.0.len() == 0
    }

    /// The parameter with the name.
    pub fn get(&self, name: Name) -> (r: Option<&Parameter>)
        ensures
            r matches Some(x) ==> named_get(self.0@, name) == Some(*x),
            r is None <==> named_get(self.0@, name) is None,
    {
        get_named(&self.0, name)
    }

    /// The parameter with the name, to change in place.
    pub fn get_mut(&mut self, name: Name) -> (r: Option<&mut Parameter>)
        ensures
            match r {
                Some(x) => named_get(old(self).0@, name) == Some(*x) && final(self).0@ == old(self).0@.update(first_named(old(self).0@, name, 0), (name, *final(x))),
                None => named_get(old(self).0@, name) is None && final(self).0@ == old(self).0@,
            },
    {
        get_named_mut(&mut self.0, name)
    }

    /// Sets the parameter with the name.
    pub fn insert(&mut self, name: Name, value: Parameter)
        ensures
            final(self).0@ == named_put(old(self).0@, name, value),
    {
        put_named(&mut self.0, name, value)
    }

    /// The object with a parameter set.
    pub fn with_parameter(self, name: Name, value: Parameter) -> (r: Self)
        ensures
            r.0@ == named_put(self.0@, name, value),
    {
        let mut o = self;
        o.insert(name, value);
        o
    }

    /// The object with parameters set, one after another.
    pub fn with_parameters(self, items: Vec<(Name, Parameter)>) -> (r: Self)
        ensures
            r.0@ == named_put_all(self.0@, items@),
    {
        let mut o = self;
        let ghost start = o.0@;
        let ghost all = items@;
        let mut items = items;
        let n0 = items.len();
        let mut i: usize = 0;
        assert(all.skip(0) =~= all);
        while items.len() > 0
            invariant
                all.len() == n0,
                i <= all.len(),
                items@ == all.skip(i as int),
                o.0@ == named_put_all(start, all.take(i as int)),
            decreases items@.len(),
        {
            let (name, value) = items.remove(0);
            proof {
                assert(all.take(i + 1).drop_last() =~= all.take(i as int));
                assert(all.skip(i + 1) =~= all.skip(i as int).drop_first());
            }
            o.insert(name, value);
            i += 1;
        }
        assert(all.take(i as int) =~= all);
        o
    }
}

impl ParameterList {
    /// An empty parameter list.
    pub fn new() -> (r: Self)
        ensures
            r.objects@ == Seq::<(Name, ParameterObject)>::empty(),
            r.lists@ == Seq::<(Name, ParameterList)>::empty(),
    {
        ParameterList { objects: Vec::new(), lists: Vec::new() }
    }

    /// The child object with the name.
    pub fn object(&self, name: Name) -> (r: Option<&ParameterObject>)
        ensures
            r matches Some(x) ==> named_get(self.objects@, name) == Some(*x),
            r is None <==> named_get(self.objects@, name) is None,
    {
        get_named(&self.objects, name)
    }

    /// The child list with the name.
    pub fn list(&self, name: Name) -> (r: Option<&ParameterList>)
        ensures
            r matches Some(x) ==> named_get(self.lists@, name) == Some(*x),
            r is None <==> named_get(self.lists@, name) is None,
    {
        get_named(&self.lists, name)
    }

    /// Sets the child object with the name.
    pub fn set_object(&mut self, name: Name, object: ParameterObject)
        ensures
            final(self).objects@ == named_put(old(self).objects@, name, object),
            final(self).lists@ == old(self).lists@,
    {
        put_named(&mut self.objects, name, object)
    }

    /// Sets the child list with the name.
    pub fn set_list(&mut self, name: Name, list: ParameterList)
        ensures
            final(self).lists@ == named_put(old(self).lists@, name, list),
            final(self).objects@ == old(self).objects@,
    {
        put_named(&mut self.lists, name, list)
    }

    /// The list with a child object set.
    pub fn with_object(self, name: Name, object: ParameterObject) -> (r: Self)
        ensures
            r.objects@ == named_put(self.objects@, name, object),
            r.lists@ == self.lists@,
    {
        let mut l = self;
        l.set_object(name, object);
        l
    }

    /// The list with a child list set.
    pub fn with_list(self, name: Name, list: ParameterList) -> (r: Self)
        ensures
            r.lists@ == named_put(self.lists@, name, list),
            r.objects@ == self.objects@,
    {
        let mut l = self;
        l.set_list(name, list);
        l
    }

    /// The list with child objects set, one after another.
    pub fn with_objects(self, items: Vec<(Name, ParameterObject)>) -> (r: Self)
        ensures
            r.objects@ == named_put_all(self.objects@, items@),
            r.lists@ == self.lists@,
    {
        let mut l = self;
        let ghost start = l.objects@;
        let ghost lists = l.lists@;
        let ghost all = items@;
        let mut items = items;
        let n0 = items.len();
        let mut i: usize = 0;
        assert(all.skip(0) =~= all);
        while items.len() > 0
            invariant
                all.len() == n0,
                i <= all.len(),
                items@ == all.skip(i as int),
                l.objects@ == named_put_all(start, all.take(i as int)),
                l.lists@ == lists,
            decreases items@.len(),
        {
            let (name, object) = items.remove(0);
            proof {
                assert(all.take(i + 1).drop_last() =~= all.take(i as int));
                assert(all.skip(i + 1) =~= all.skip(i as int).drop_first());
            }
            l.set_object(name, object);
            i += 1;
        }
        assert(all.take(i as int) =~= all);
        l
    }

    /// The list with child lists set, one after another.
    pub fn with_lists(self, items: Vec<(Name, ParameterList)>) -> (r: Self)
        ensures
            r.lists@ == named_put_all(self.lists@, items@),
            r.objects@ == self.objects@,
    {
        let mut l = self;
        let ghost start = l.lists@;
        let ghost objects = l.objects@;
        let ghost all = items@;
        let mut items = items;
        let n0 = items.len();
        let mut i: usize = 0;
        assert(all.skip(0) =~= all);
        while items.len() > 0
            invariant
                all.len() == n0,
                i <= all.len(),
                items@ == all.skip(i as int),
                l.lists@ == named_put_all(start, all.take(i as int)),
                l.objects@ == objects,
            decreases items@.len(),
        {
            let (name, list) = items.remove(0);
            proof {
                assert(all.take(i + 1).drop_last() =~= all.take(i as int));
                assert(all.skip(i + 1) =~= all.skip(i as int).drop_first());
            }
            l.set_list(name, list);
            i += 1;
        }
        assert(all.take(i as int) =~= all);
        l
    }
    /// The child lists.
    pub fn lists(&self) -> (r: &Vec<(Name, ParameterList)>)
        ensures
            *r == self.lists,
    {
        &self.lists
    }

    /// The child lists, to change in place.
    pub fn lists_mut(&mut self) -> (r: &mut Vec<(Name, ParameterList)>)
        ensures
            *r == old(self).lists,
            final(self).lists == *final(r),
            final(self).objects == old(self).objects,
    {
        &mut self.lists
    }

    /// The child objects.
    pub fn objects(&self) -> (r: &Vec<(Name, ParameterObject)>)
        ensures
            *r == self.objects,
    {
        &self.objects
    }

    /// The child objects, to change in place.
    pub fn objects_mut(&mut self) -> (r: &mut Vec<(Name, ParameterObject)>)
        ensures
            *r == old(self).objects,
            final(self).objects == *final(r),
            final(self).lists == old(self).lists,
    {
        &mut self.objects
    }

    /// The child list with the name, to change in place.
    pub fn list_mut(&mut self, name: Name) -> (r: Option<&mut ParameterList>)
        ensures
            match r {
                Some(x) => named_get(old(self).lists@, name) == Some(*x) && final(self).lists@
                    == old(self).lists@.update(
                    first_named(old(self).lists@, name, 0),
                    (name, *final(x)),
                ),
                None => named_get(old(self).lists@, name) is None && final(self).lists@ == old(self).lists@,
            },
            final(self).objects == old(self).objects,
    {
        get_named_mut(&mut self.lists, name)
    }

    /// The child object with the name, to change in place.
    pub fn object_mut(&mut self, name: Name) -> (r: Option<&mut ParameterObject>)
        ensures
            match r {
                Some(x) => named_get(old(self).objects@, name) == Some(*x) && final(self).objects@ == old(self).objects@.update(
                    first_named(old(self).objects@, name, 0),
                    (name, *final(x)),
                ),
                None => named_get(old(self).objects@, name) is None && final(self).objects@
                    == old(self).objects@,
            },
            final(self).lists == old(self).lists,
    {
        get_named_mut(&mut self.objects, name)
    }

}

impl ParameterIO {
    /// An empty parameter IO with data type `xml` and version 0.
    pub fn new() -> (r: Self)
        ensures
            r.version == 0,
            r.data_type@ == "xml"@,
            r.param_root.objects@.len() == 0,
            r.param_root.lists@.len() == 0,
    {
        ParameterIO { version: 0, data_type: "xml".to_owned(), param_root: ParameterList::new() }
    }

    /// The root's object with the name.
    pub fn object(&self, name: Name) -> (r: Option<&ParameterObject>)
        ensures
            r matches Some(x) ==> named_get(self.param_root.objects@, name) == Some(*x),
            r is None <==> named_get(self.param_root.objects@, name) is None,
    {
        self.param_root.object(name)
    }

    /// The root's list with the name.
    pub fn list(&self, name: Name) -> (r: Option<&ParameterList>)
        ensures
            r matches Some(x) ==> named_get(self.param_root.lists@, name) == Some(*x),
            r is None <==> named_get(self.param_root.lists@, name) is None,
    {
        self.param_root.list(name)
    }

    /// The parameter IO with another data version.
    pub fn with_version(self, version: u32) -> (r: Self)
        ensures
            r.version == version,
            r.data_type == self.data_type,
            r.param_root == self.param_root,
    {
        ParameterIO { version, ..self }
    }

    /// The parameter IO with another data type.
    pub fn with_data_type(self, data_type: String) -> (r: Self)
        ensures
            r.version == self.version,
            r.data_type == data_type,
            r.param_root == self.param_root,
    {
        ParameterIO { data_type, ..self }
    }

    /// The parameter IO with another root list.
    pub fn with_root(self, root: ParameterList) -> (r: Self)
        ensures
            r.version == self.version,
            r.data_type == self.data_type,
            r.param_root == root,
    {
        ParameterIO { param_root: root, ..self }
    }

    /// The parameter IO with a root object set.
    pub fn with_object(self, name: Name, object: ParameterObject) -> (r: Self)
        ensures
            r.param_root.objects@ == named_put(self.param_root.objects@, name, object),
            r.param_root.lists@ == self.param_root.lists@,
            r.version == self.version,
            r.data_type == self.data_type,
    {
        let mut p = self;
        p.param_root.set_object(name, object);
        p
    }

    /// The parameter IO with a root list set.
    pub fn with_list(self, name: Name, list: ParameterList) -> (r: Self)
        ensures
            r.param_root.lists@ == named_put(self.param_root.lists@, name, list),
            r.param_root.objects@ == self.param_root.objects@,
            r.version == self.version,
            r.data_type == self.data_type,
    {
        let mut p = self;
        p.param_root.set_list(name, list);
        p
    }

    /// The parameter IO with root objects set, one after another.
    pub fn with_objects(self, items: Vec<(Name, ParameterObject)>) -> (r: Self)
        ensures
            r.param_root.objects@ == named_put_all(self.param_root.objects@, items@),
            r.param_root.lists@ == self.param_root.lists@,
            r.version == self.version,
            r.data_type == self.data_type,
    {
        let ParameterIO { version, data_type, param_root } = self;
        ParameterIO { version, data_type, param_root: param_root.with_objects(items) }
    }

    /// The parameter IO with root lists set, one after another.
    pub fn with_lists(self, items: Vec<(Name, ParameterList)>) -> (r: Self)
        ensures
            r.param_root.lists@ == named_put_all(self.param_root.lists@, items@),
            r.param_root.objects@ == self.param_root.objects@,
            r.version == self.version,
            r.data_type == self.data_type,
    {
        let ParameterIO { version, data_type, param_root } = self;
        ParameterIO { version, data_type, param_root: param_root.with_lists(items) }
    }
    /// The child lists.
    pub fn lists(&self) -> (r: &Vec<(Name, ParameterList)>)
        ensures
            *r == self.param_root.lists,
    {
        &self.param_root.lists
    }

    /// The child lists, to change in place.
    pub fn lists_mut(&mut self) -> (r: &mut Vec<(Name, ParameterList)>)
        ensures
            *r == old(self).param_root.lists,
            final(self).param_root.lists == *final(r),
            final(self).param_root.objects == old(self).param_root.objects,
    {
        &mut self.param_root.lists
    }

    /// The child objects.
    pub fn objects(&self) -> (r: &Vec<(Name, ParameterObject)>)
        ensures
            *r == self.param_root.objects,
    {
        &self.param_root.objects
    }

    /// The child objects, to change in place.
    pub fn objects_mut(&mut self) -> (r: &mut Vec<(Name, ParameterObject)>)
        ensures
            *r == old(self).param_root.objects,
            final(self).param_root.objects == *final(r),
            final(self).param_root.lists == old(self).param_root.lists,
    {
        &mut self.param_root.objects
    }

    /// The child list with the name, to change in place.
    pub fn list_mut(&mut self, name: Name) -> (r: Option<&mut ParameterList>)
        ensures
            match r {
                Some(x) => named_get(old(self).param_root.lists@, name) == Some(*x) && final(self).param_root.lists@
                    == old(self).param_root.lists@.update(
                    first_named(old(self).param_root.lists@, name, 0),
                    (name, *final(x)),
                ),
                None => named_get(old(self).param_root.lists@, name) is None && final(self).param_root.lists@ == old(self).param_root.lists@,
            },
            final(self).param_root.objects == old(self).param_root.objects,
    {
        get_named_mut(&mut self.param_root.lists, name)
    }

    /// The child object with the name, to change in place.
    pub fn object_mut(&mut self, name: Name) -> (r: Option<&mut ParameterObject>)
        ensures
            match r {
                Some(x) => named_get(old(self).param_root.objects@, name) == Some(*x) && final(self).param_root.objects@ == old(self).param_root.objects@.update(
                    first_named(old(self).param_root.objects@, name, 0),
                    (name, *final(x)),
                ),
                None => named_get(old(self).param_root.objects@, name) is None && final(self).param_root.objects@
                    == old(self).param_root.objects@,
            },
            final(self).param_root.lists == old(self).param_root.lists,
    {
        get_named_mut(&mut self.param_root.objects, name)
    }

}

impl Parameter {
    /// A mutable reference to the inner bool.
    pub fn as_mut_bool(&mut self) -> (r: Result<&mut bool>)
        ensures
            r is Ok <==> *old(self) is Bool,
            r matches Ok(v) ==> *v == old(self)->Bool_0 && *final(self) == Parameter::Bool(*final(v)),
            r matches Err(e) ==> param_type_error(old(self), "bool"@, e) && *final(self) == *old(self),
    {
        match self {
            Parameter::Bool(v) => Ok(v),
            _ => Err(Error::TypeError(self.param_type_name(), "bool")),
        }
    }

    /// A mutable reference to the inner float bits.
    pub fn as_mut_f32(&mut self) -> (r: Result<&mut u32>)
        ensures
            r is Ok <==> *old(self) is F32,
            r matches Ok(v) ==> *v == old(self)->F32_0 && *final(self) == Parameter::F32(*final(v)),
            r matches Err(e) ==> param_type_error(old(self), "f32"@, e) && *final(self) == *old(self),
    {
        match self {
            Parameter::F32(v) => Ok(v),
            _ => Err(Error::TypeError(self.param_type_name(), "f32")),
        }
    }

    /// A mutable reference to the inner int.
    pub fn as_mut_int(&mut self) -> (r: Result<&mut i32>)
        ensures
            r is Ok <==> *old(self) is Int,
            r matches Ok(v) ==> *v == old(self)->Int_0 && *final(self) == Parameter::Int(*final(v)),
            r matches Err(e) ==> param_type_error(old(self), "i32"@, e) && *final(self) == *old(self),
    {
        match self {
            Parameter::Int(v) => Ok(v),
            _ => Err(Error::TypeError(self.param_type_name(), "i32")),
        }
    }

    /// A mutable reference to the inner 2D vector.
    pub fn as_mut_vec2(&mut self) -> (r: Result<&mut Vector2f>)
        ensures
            r is Ok <==> *old(self) is Vec2,
            r matches Ok(v) ==> *v == old(self)->Vec2_0 && *final(self) == Parameter::Vec2(*final(v)),
            r matches Err(e) ==> param_type_error(old(self), "vec2"@, e) && *final(self) == *old(self),
    {
        match self {
            Parameter::Vec2(v) => Ok(v),
            _ => Err(Error::TypeError(self.param_type_name(), "vec2")),
        }
    }

    /// A mutable reference to the inner 3D vector.
    pub fn as_mut_vec3(&mut self) -> (r: Result<&mut Vector3f>)
        ensures
            r is Ok <==> *old(self) is Vec3,
            r matches Ok(v) ==> *v == old(self)->Vec3_0 && *final(self) == Parameter::Vec3(*final(v)),
            r matches Err(e) ==> param_type_error(old(self), "vec3"@, e) && *final(self) == *old(self),
    {
        match self {
            Parameter::Vec3(v) => Ok(v),
            _ => Err(Error::TypeError(self.param_type_name(), "vec3")),
        }
    }

    /// A mutable reference to the inner 4D vector.
    pub fn as_mut_vec4(&mut self) -> (r: Result<&mut Vector4f>)
        ensures
            r is Ok <==> *old(self) is Vec4,
            r matches Ok(v) ==> *v == old(self)->Vec4_0 && *final(self) == Parameter::Vec4(*final(v)),
            r matches Err(e) ==> param_type_error(old(self), "vec4"@, e) && *final(self) == *old(self),
    {
        match self {
            Parameter::Vec4(v) => Ok(v),
            _ => Err(Error::TypeError(self.param_type_name(), "vec4")),
        }
    }

    /// A mutable reference to the inner float buffer.
    pub fn as_mut_buffer_f32(&mut self) -> (r: Result<&mut Vec<u32>>)
        ensures
            r is Ok <==> *old(self) is BufferF32,
            r matches Ok(v) ==> *v == old(self)->BufferF32_0 && *final(self) == Parameter::BufferF32(*final(v)),
            r matches Err(e) ==> param_type_error(old(self), "Vec<f32>"@, e) && *final(self) == *old(self),
    {
        match self {
            Parameter::BufferF32(v) => Ok(v),
            _ => Err(Error::TypeError(self.param_type_name(), "Vec<f32>")),
        }
    }

    /// A mutable reference to the inner int buffer.
    pub fn as_mut_buffer_int(&mut self) -> (r: Result<&mut Vec<i32>>)
        ensures
            r is Ok <==> *old(self) is BufferInt,
            r matches Ok(v) ==> *v == old(self)->BufferInt_0 && *final(self) == Parameter::BufferInt(*final(v)),
            r matches Err(e) ==> param_type_error(old(self), "Vec<i32>"@, e) && *final(self) == *old(self),
    {
        match self {
            Parameter::BufferInt(v) => Ok(v),
            _ => Err(Error::TypeError(self.param_type_name(), "Vec<i32>")),
        }
    }

    /// A mutable reference to the inner color.
    pub fn as_mut_color(&mut self) -> (r: Result<&mut Color>)
        ensures
            r is Ok <==> *old(self) is Color,
            r matches Ok(v) ==> *v == old(self)->Color_0 && *final(self) == Parameter::Color(*final(v)),
            r matches Err(e) ==> param_type_error(old(self), "color"@, e) && *final(self) == *old(self),
    {
        match self {
            Parameter::Color(v) => Ok(v),
            _ => Err(Error::TypeError(self.param_type_name(), "color")),
        }
    }

    /// A mutable reference to the inner string.
    pub fn as_mut_string32(&mut self) -> (r: Result<&mut FixedSafeString<32>>)
        ensures
            r is Ok <==> *old(self) is String32,
            r matches Ok(v) ==> *v == old(self)->String32_0 && *final(self) == Parameter::String32(*final(v)),
            r matches Err(e) ==> param_type_error(old(self), "FixedSafeString<32>"@, e) && *final(self) == *old(self),
    {
        match self {
            Parameter::String32(v) => Ok(v),
            _ => Err(Error::TypeError(self.param_type_name(), "FixedSafeString<32>")),
        }
    }

    /// A mutable reference to the inner string.
    pub fn as_mut_string64(&mut self) -> (r: Result<&mut FixedSafeString<64>>)
        ensures
            r is Ok <==> *old(self) is String64,
            r matches Ok(v) ==> *v == old(self)->String64_0 && *final(self) == Parameter::String64(*final(v)),
            r matches Err(e) ==> param_type_error(old(self), "FixedSafeString<64>"@, e) && *final(self) == *old(self),
    {
        match self {
            Parameter::String64(v) => Ok(v),
            _ => Err(Error::TypeError(self.param_type_name(), "FixedSafeString<64>")),
        }
    }

    /// A mutable reference to the inner string.
    pub fn as_mut_string256(&mut self) -> (r: Result<&mut FixedSafeString<256>>)
        ensures
            r is Ok <==> *old(self) is String256,
            r matches Ok(v) ==> *v == old(self)->String256_0 && *final(self) == Parameter::String256(*final(v)),
            r matches Err(e) ==> param_type_error(old(self), "FixedSafeString<256>"@, e) && *final(self) == *old(self),
    {
        match self {
            Parameter::String256(v) => Ok(v),
            _ => Err(Error::TypeError(self.param_type_name(), "FixedSafeString<256>")),
        }
    }

    /// A mutable reference to the inner curve.
    pub fn as_mut_curve1(&mut self) -> (r: Result<&mut Vec<Curve>>)
        ensures
            r is Ok <==> *old(self) is Curve1,
            r matches Ok(v) ==> *v == old(self)->Curve1_0 && *final(self) == Parameter::Curve1(*final(v)),
            r matches Err(e) ==> param_type_error(old(self), "[Curve; 1]"@, e) && *final(self) == *old(self),
    {
        match self {
            Parameter::Curve1(v) => Ok(v),
            _ => Err(Error::TypeError(self.param_type_name(), "[Curve; 1]")),
        }
    }

    /// A mutable reference to the inner curves.
    pub fn as_mut_curve2(&mut self) -> (r: Result<&mut Vec<Curve>>)
        ensures
            r is Ok <==> *old(self) is Curve2,
            r matches Ok(v) ==> *v == old(self)->Curve2_0 && *final(self) == Parameter::Curve2(*final(v)),
            r matches Err(e) ==> param_type_error(old(self), "[Curve; 2]"@, e) && *final(self) == *old(self),
    {
        match self {
            Parameter::Curve2(v) => Ok(v),
            _ => Err(Error::TypeError(self.param_type_name(), "[Curve; 2]")),
        }
    }

    /// A mutable reference to the inner curves.
    pub fn as_mut_curve3(&mut self) -> (r: Result<&mut Vec<Curve>>)
        ensures
            r is Ok <==> *old(self) is Curve3,
            r matches Ok(v) ==> *v == old(self)->Curve3_0 && *final(self) == Parameter::Curve3(*final(v)),
            r matches Err(e) ==> param_type_error(old(self), "[Curve; 3]"@, e) && *final(self) == *old(self),
    {
        match self {
            Parameter::Curve3(v) => Ok(v),
            _ => Err(Error::TypeError(self.param_type_name(), "[Curve; 3]")),
        }
    }

    /// A mutable reference to the inner curves.
    pub fn as_mut_curve4(&mut self) -> (r: Result<&mut Vec<Curve>>)
        ensures
            r is Ok <==> *old(self) is Curve4,
            r matches Ok(v) ==> *v == old(self)->Curve4_0 && *final(self) == Parameter::Curve4(*final(v)),
            r matches Err(e) ==> param_type_error(old(self), "[Curve; 4]"@, e) && *final(self) == *old(self),
    {
        match self {
            Parameter::Curve4(v) => Ok(v),
            _ => Err(Error::TypeError(self.param_type_name(), "[Curve; 4]")),
        }
    }

    /// A mutable reference to the inner quaternion.
    pub fn as_mut_quat(&mut self) -> (r: Result<&mut Quat>)
        ensures
            r is Ok <==> *old(self) is Quat,
            r matches Ok(v) ==> *v == old(self)->Quat_0 && *final(self) == Parameter::Quat(*final(v)),
            r matches Err(e) ==> param_type_error(old(self), "Quat"@, e) && *final(self) == *old(self),
    {
        match self {
            Parameter::Quat(v) => Ok(v),
            _ => Err(Error::TypeError(self.param_type_name(), "Quat")),
        }
    }

    /// A mutable reference to the inner u32.
    pub fn as_mut_u32(&mut self) -> (r: Result<&mut u32>)
        ensures
            r is Ok <==> *old(self) is U32,
            r matches Ok(v) ==> *v == old(self)->U32_0 && *final(self) == Parameter::U32(*final(v)),
            r matches Err(e) ==> param_type_error(old(self), "u32"@, e) && *final(self) == *old(self),
    {
        match self {
            Parameter::U32(v) => Ok(v),
            _ => Err(Error::TypeError(self.param_type_name(), "u32")),
        }
    }

    /// A mutable reference to the inner u32 buffer.
    pub fn as_mut_buffer_u32(&mut self) -> (r: Result<&mut Vec<u32>>)
        ensures
            r is Ok <==> *old(self) is BufferU32,
            r matches Ok(v) ==> *v == old(self)->BufferU32_0 && *final(self) == Parameter::BufferU32(*final(v)),
            r matches Err(e) ==> param_type_error(old(self), "Vec<u32>"@, e) && *final(self) == *old(self),
    {
        match self {
            Parameter::BufferU32(v) => Ok(v),
            _ => Err(Error::TypeError(self.param_type_name(), "Vec<u32>")),
        }
    }

    /// A mutable reference to the inner binary buffer.
    pub fn as_mut_buffer_binary(&mut self) -> (r: Result<&mut Vec<u8>>)
        ensures
            r is Ok <==> *old(self) is BufferBinary,
            r matches Ok(v) ==> *v == old(self)->BufferBinary_0 && *final(self) == Parameter::BufferBinary(*final(v)),
            r matches Err(e) ==> param_type_error(old(self), "Vec<u8>"@, e) && *final(self) == *old(self),
    {
        match self {
            Parameter::BufferBinary(v) => Ok(v),
            _ => Err(Error::TypeError(self.param_type_name(), "Vec<u8>")),
        }
    }

    /// A mutable reference to the inner string.
    pub fn as_mut_string_ref(&mut self) -> (r: Result<&mut String>)
        ensures
            r is Ok <==> *old(self) is StringRef,
            r matches Ok(v) ==> *v == old(self)->StringRef_0 && *final(self) == Parameter::StringRef(*final(v)),
            r matches Err(e) ==> param_type_error(old(self), "string"@, e) && *final(self) == *old(self),
    {
        match self {
            Parameter::StringRef(v) => Ok(v),
            _ => Err(Error::TypeError(self.param_type_name(), "string")),
        }
    }
}

impl From<bool> for Parameter {
    fn from(value: bool) -> (r: Self) {
        Parameter::Bool(value)
    }
}

impl vstd::std_specs::convert::FromSpecImpl<bool> for Parameter {
    open spec fn obeys_from_spec() -> bool {
        true
    }

    open spec fn from_spec(v: bool) -> Self {
        Parameter::Bool(v)
    }
}

impl From<i32> for Parameter {
    fn from(value: i32) -> (r: Self) {
        Parameter::Int(value)
    }
}

impl vstd::std_specs::convert::FromSpecImpl<i32> for Parameter {
    open spec fn obeys_from_spec() -> bool {
        true
    }

    open spec fn from_spec(v: i32) -> Self {
        Parameter::Int(v)
    }
}

impl From<u32> for Parameter {
    fn from(value: u32) -> (r: Self) {
        Parameter::U32(value)
    }
}

impl vstd::std_specs::convert::FromSpecImpl<u32> for Parameter {
    open spec fn obeys_from_spec() -> bool {
        true
    }

    open spec fn from_spec(v: u32) -> Self {
        Parameter::U32(v)
    }
}

impl From<Vector2f> for Parameter {
    fn from(value: Vector2f) -> (r: Self) {
        Parameter::Vec2(value)
    }
}

impl vstd::std_specs::convert::FromSpecImpl<Vector2f> for Parameter {
    open spec fn obeys_from_spec() -> bool {
        true
    }

    open spec fn from_spec(v: Vector2f) -> Self {
        Parameter::Vec2(v)
    }
}

impl From<Vector3f> for Parameter {
    fn from(value: Vector3f) -> (r: Self) {
        Parameter::Vec3(value)
    }
}

impl vstd::std_specs::convert::FromSpecImpl<Vector3f> for Parameter {
    open spec fn obeys_from_spec() -> bool {
        true
    }

    open spec fn from_spec(v: Vector3f) -> Self {
        Parameter::Vec3(v)
    }
}

impl From<Vector4f> for Parameter {
    fn from(value: Vector4f) -> (r: Self) {
        Parameter::Vec4(value)
    }
}

impl vstd::std_specs::convert::FromSpecImpl<Vector4f> for Parameter {
    open spec fn obeys_from_spec() -> bool {
        true
    }

    open spec fn from_spec(v: Vector4f) -> Self {
        Parameter::Vec4(v)
    }
}

impl From<Color> for Parameter {
    fn from(value: Color) -> (r: Self) {
        Parameter::Color(value)
    }
}

impl vstd::std_specs::convert::FromSpecImpl<Color> for Parameter {
    open spec fn obeys_from_spec() -> bool {
        true
    }

    open spec fn from_spec(v: Color) -> Self {
        Parameter::Color(v)
    }
}

impl From<FixedSafeString<32>> for Parameter {
    fn from(value: FixedSafeString<32>) -> (r: Self) {
        Parameter::String32(value)
    }
}

impl vstd::std_specs::convert::FromSpecImpl<FixedSafeString<32>> for Parameter {
    open spec fn obeys_from_spec() -> bool {
        true
    }

    open spec fn from_spec(v: FixedSafeString<32>) -> Self {
        Parameter::String32(v)
    }
}

impl From<FixedSafeString<64>> for Parameter {
    fn from(value: FixedSafeString<64>) -> (r: Self) {
        Parameter::String64(value)
    }
}

impl vstd::std_specs::convert::FromSpecImpl<FixedSafeString<64>> for Parameter {
    open spec fn obeys_from_spec() -> bool {
        true
    }

    open spec fn from_spec(v: FixedSafeString<64>) -> Self {
        Parameter::String64(v)
    }
}

impl From<FixedSafeString<256>> for Parameter {
    fn from(value: FixedSafeString<256>) -> (r: Self) {
        Parameter::String256(value)
    }
}

impl vstd::std_specs::convert::FromSpecImpl<FixedSafeString<256>> for Parameter {
    open spec fn obeys_from_spec() -> bool {
        true
    }

    open spec fn from_spec(v: FixedSafeString<256>) -> Self {
        Parameter::String256(v)
    }
}

impl From<Quat> for Parameter {
    fn from(value: Quat) -> (r: Self) {
        Parameter::Quat(value)
    }
}

impl vstd::std_specs::convert::FromSpecImpl<Quat> for Parameter {
    open spec fn obeys_from_spec() -> bool {
        true
    }

    open spec fn from_spec(v: Quat) -> Self {
        Parameter::Quat(v)
    }
}

impl From<Vec<i32>> for Parameter {
    fn from(value: Vec<i32>) -> (r: Self) {
        Parameter::BufferInt(value)
    }
}

impl vstd::std_specs::convert::FromSpecImpl<Vec<i32>> for Parameter {
    open spec fn obeys_from_spec() -> bool {
        true
    }

    open spec fn from_spec(v: Vec<i32>) -> Self {
        Parameter::BufferInt(v)
    }
}

impl From<Vec<u32>> for Parameter {
    fn from(value: Vec<u32>) -> (r: Self) {
        Parameter::BufferU32(value)
    }
}

impl vstd::std_specs::convert::FromSpecImpl<Vec<u32>> for Parameter {
    open spec fn obeys_from_spec() -> bool {
        true
    }

    open spec fn from_spec(v: Vec<u32>) -> Self {
        Parameter::BufferU32(v)
    }
}

impl From<Vec<u8>> for Parameter {
    fn from(value: Vec<u8>) -> (r: Self) {
        Parameter::BufferBinary(value)
    }
}

impl vstd::std_specs::convert::FromSpecImpl<Vec<u8>> for Parameter {
    open spec fn obeys_from_spec() -> bool {
        true
    }

    open spec fn from_spec(v: Vec<u8>) -> Self {
        Parameter::BufferBinary(v)
    }
}

impl From<String> for Parameter {
    fn from(value: String) -> (r: Self) {
        Parameter::StringRef(value)
    }
}

impl vstd::std_specs::convert::FromSpecImpl<String> for Parameter {
    open spec fn obeys_from_spec() -> bool {
        true
    }

    open spec fn from_spec(v: String) -> Self {
        Parameter::StringRef(v)
    }
}

} // verus!
