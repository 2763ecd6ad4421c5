//! Parameter values and the structures that hold them.
use vstd::prelude::*;
use crate::types::FixedSafeString;
use super::Name;

verus! {

/// 2D vector; its components are the bits of 32-bit floats.
#[derive(Debug, Clone, Copy, PartialEq, Eq, Hash, Structural)]
pub struct Vector2f {
    pub x: u32,
    pub y: u32,
}

/// 3D vector; its components are the bits of 32-bit floats.
#[derive(Debug, Clone, Copy, PartialEq, Eq, Hash, Structural)]
pub struct Vector3f {
    pub x: u32,
    pub y: u32,
    pub z: u32,
}

/// 4D vector; its components are the bits of 32-bit floats.
#[derive(Debug, Clone, Copy, PartialEq, Eq, Hash, Structural)]
pub struct Vector4f {
    pub x: u32,
    pub y: u32,
    pub z: u32,
    pub t: u32,
}

/// Quaternion; its components are the bits of 32-bit floats.
#[derive(Debug, Clone, Copy, PartialEq, Eq, Hash, Structural)]
pub struct Quat {
    pub a: u32,
    pub b: u32,
    pub c: u32,
    pub d: u32,
}

/// Color (RGBA); its components are the bits of 32-bit floats.
#[derive(Debug, Clone, Copy, PartialEq, Eq, Hash, Structural)]
pub struct Color {
    pub r: u32,
    pub g: u32,
    pub b: u32,
    pub a: u32,
}

/// Curve: two integers, then thirty floats as their bits.
#[derive(Debug, PartialEq, Hash)]
pub struct Curve {
    pub a: u32,
    pub b: u32,
    pub floats: Vec<u32>,
}

/// Parameter. Floating-point values are held as their bits.
#[derive(Debug, PartialEq, Hash)]
pub enum Parameter {
    /// Boolean.
    Bool(bool),
    /// Float.
    F32(u32),
    /// Int.
    Int(i32),
    /// 2D vector.
    Vec2(Vector2f),
    /// 3D vector.
    Vec3(Vector3f),
    /// 4D vector.
    Vec4(Vector4f),
    /// Color.
    Color(Color),
    /// String (max length 32 bytes).
    String32(FixedSafeString<32>),
    /// String (max length 64 bytes).
    String64(FixedSafeString<64>),
    /// A single curve.
    Curve1(Vec<Curve>),
    /// Two curves.
    Curve2(Vec<Curve>),
    /// Three curves.
    Curve3(Vec<Curve>),
    /// Four curves.
    Curve4(Vec<Curve>),
    /// Buffer of signed ints.
    BufferInt(Vec<i32>),
    /// Buffer of floats.
    BufferF32(Vec<u32>),
    /// String (max length 256 bytes).
    String256(FixedSafeString<256>),
    /// Quaternion.
    Quat(Quat),
    /// Unsigned int.
    U32(u32),
    /// Buffer of unsigned ints.
    BufferU32(Vec<u32>),
    /// Buffer of binary data.
    BufferBinary(Vec<u8>),
    /// String (no length limit).
    StringRef(String),
}

/// What a parameter holds: a boolean, 32-bit words, bytes or characters.
pub enum PVal {
    Bool(bool),
    Words(Seq<u32>),
    Bytes(Seq<u8>),
    Chars(Seq<char>),
}

/// The words of a sequence of curves, each as `a`, `b` and its floats.
pub open spec fn curves_words(cs: Seq<Curve>) -> Seq<u32>
    decreases cs.len(),
{
    if cs.len() == 0 {
        Seq::empty()
    } else {
        curves_words(cs.drop_last()) + seq![cs.last().a, cs.last().b] + cs.last().floats@
    }
}

/// The type code of a parameter and what it holds.
pub open spec fn param_view(p: Parameter) -> (u8, PVal) {
    match p {
        Parameter::Bool(b) => (0, PVal::Bool(b)),
        Parameter::F32(x) => (1, PVal::Words(seq![x])),
        Parameter::Int(x) => (2, PVal::Words(seq![x as u32])),
        Parameter::Vec2(v) => (3, PVal::Words(seq![v.x, v.y])),
        Parameter::Vec3(v) => (4, PVal::Words(seq![v.x, v.y, v.z])),
        Parameter::Vec4(v) => (5, PVal::Words(seq![v.x, v.y, v.z, v.t])),
        Parameter::Color(v) => (6, PVal::Words(seq![v.r, v.g, v.b, v.a])),
        Parameter::String32(s) => (7, PVal::Bytes(s@)),
        Parameter::String64(s) => (8, PVal::Bytes(s@)),
        Parameter::Curve1(cs) => (9, PVal::Words(curves_words(cs@))),
        Parameter::Curve2(cs) => (10, PVal::Words(curves_words(cs@))),
        Parameter::Curve3(cs) => (11, PVal::Words(curves_words(cs@))),
        Parameter::Curve4(cs) => (12, PVal::Words(curves_words(cs@))),
        Parameter::BufferInt(v) => (13, PVal::Words(v@.map_values(|x: i32| x as u32))),
        Parameter::BufferF32(v) => (14, PVal::Words(v@)),
        Parameter::String256(s) => (15, PVal::Bytes(s@)),
        Parameter::Quat(v) => (16, PVal::Words(seq![v.a, v.b, v.c, v.d])),
        Parameter::U32(x) => (17, PVal::Words(seq![x])),
        Parameter::BufferU32(v) => (18, PVal::Words(v@)),
        Parameter::BufferBinary(v) => (19, PVal::Bytes(v@)),
        Parameter::StringRef(s) => (20, PVal::Chars(s@)),
    }
}

/// Parameter object: parameters by name, in the order that they were
/// first added; no name occurs twice.
#[derive(Debug, PartialEq)]
pub struct ParameterObject(pub Vec<(Name, Parameter)>);

/// Parameter list: objects and lists by name, each in the order that they
/// were first added.
#[derive(Debug, PartialEq)]
pub struct ParameterList {
    /// Child parameter objects.
    pub objects: Vec<(Name, ParameterObject)>,
    /// Child parameter lists.
    pub lists: Vec<(Name, ParameterList)>,
}

/// Parameter IO: the root list of a parameter archive with its version and
/// data type.
#[derive(Debug, PartialEq)]
pub struct ParameterIO {
    /// Data version (not the AAMP format version). Typically 0.
    pub version: u32,
    /// Data type identifier. Typically “xml”.
    pub data_type: String,
    /// Root parameter list.
    pub param_root: ParameterList,
}

/// The parameters of an object by name hash.
pub open spec fn object_view(o: ParameterObject) -> Seq<(u32, (u8, PVal))> {
    Seq::new(o.0@.len(), |i: int| (o.0@[i].0.spec_hash(), param_view(o.0@[i].1)))
}

/// A parameter list by name hashes.
pub struct ListV {
    pub objects: Seq<(u32, Seq<(u32, (u8, PVal))>)>,
    pub lists: Seq<(u32, ListV)>,
}

/// The view of a parameter list.
pub open spec fn list_view(l: ParameterList) -> ListV
    decreases l,
{
    ListV {
        objects: Seq::new(
            l.objects@.len(),
            |i: int| (l.objects@[i].0.spec_hash(), object_view(l.objects@[i].1)),
        ),
        lists: Seq::new(
            l.lists@.len(),
            |i: int|
                if 0 <= i < l.lists@.len() {
                    (l.lists@[i].0.spec_hash(), list_view(l.lists@[i].1))
                } else {
                    (0, ListV { objects: Seq::empty(), lists: Seq::empty() })
                },
        ),
    }
}

} // verus!
