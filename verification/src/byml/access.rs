//! Reading the values of BYML nodes.
use vstd::prelude::*;
use crate::{Error, Result};
use crate::yaml::str_eq;
use super::writer::type_of;
use super::{Byml, BymlIndex, NodeType, spec_node_type_name};

verus! {

/// The error for a node that is not of the expected type.
pub open spec fn type_error(b: &Byml, expected: Seq<char>, e: Error) -> bool {
    e matches Error::TypeError(found, exp) && found@ == spec_node_type_name(type_of(b.node()))
        && exp@ == expected
}

impl Byml {
    /// The type of the node.
    pub fn get_node_type(&self) -> (r: NodeType)
        ensures
            r == type_of(self.node()),
    {
        match self {
            Byml::String(_) => NodeType::String,
            Byml::BinaryData(_) => NodeType::Binary,
            Byml::Array(_) => NodeType::Array,
            Byml::Hash(_) => NodeType::Hash,
            Byml::Bool(_) => NodeType::Bool,
            Byml::I32(_) => NodeType::I32,
            Byml::Float(_) => NodeType::Float,
            Byml::U32(_) => NodeType::U32,
            Byml::I64(_) => NodeType::I64,
            Byml::U64(_) => NodeType::U64,
            Byml::Double(_) => NodeType::Double,
            Byml::Null => NodeType::Null,
        }
    }

    /// The name of the node's type.
    pub fn node_type_name(&self) -> (r: String)
        ensures
            r@ == spec_node_type_name(type_of(self.node())),
    {
        self.get_node_type().name()
    }

    /// Checks if the node is a null node.
    pub fn is_null(&self) -> (r: bool)
        ensures
            r == (*self is Null),
    {
        match self {
            Byml::Null => true,
            _ => false,
        }
    }

    /// The inner bool value.
    pub fn as_bool(&self) -> (r: Result<bool>)
        ensures
            r is Ok <==> *self is Bool,
            r matches Ok(v) ==> v == self->Bool_0,
            r matches Err(e) ==> type_error(self, "Bool"@, e),
    {
        match self {
            Byml::Bool(v) => Ok(*v),
            _ => Err(Error::TypeError(self.node_type_name(), "Bool")),
        }
    }

    /// Extracts the inner bool value.
    pub fn into_bool(self) -> (r: Result<bool>)
        ensures
            r is Ok <==> self is Bool,
            r matches Ok(v) ==> v == self->Bool_0,
            r matches Err(e) ==> type_error(&self, "Bool"@, e),
    {
        match self {
            Byml::Bool(v) => Ok(v),
            _ => Err(Error::TypeError(self.node_type_name(), "Bool")),
        }
    }

    /// The inner i32 value.
    pub fn as_i32(&self) -> (r: Result<i32>)
        ensures
            r is Ok <==> *self is I32,
            r matches Ok(v) ==> v == self->I32_0,
            r matches Err(e) ==> type_error(self, "I32"@, e),
    {
        match self {
            Byml::I32(v) => Ok(*v),
            _ => Err(Error::TypeError(self.node_type_name(), "I32")),
        }
    }

    /// Extracts the inner i32 value.
    pub fn into_i32(self) -> (r: Result<i32>)
        ensures
            r is Ok <==> self is I32,
            r matches Ok(v) ==> v == self->I32_0,
            r matches Err(e) ==> type_error(&self, "I32"@, e),
    {
        match self {
            Byml::I32(v) => Ok(v),
            _ => Err(Error::TypeError(self.node_type_name(), "I32")),
        }
    }

    /// The inner u32 value.
    pub fn as_u32(&self) -> (r: Result<u32>)
        ensures
            r is Ok <==> *self is U32,
            r matches Ok(v) ==> v == self->U32_0,
            r matches Err(e) ==> type_error(self, "U32"@, e),
    {
        match self {
            Byml::U32(v) => Ok(*v),
            _ => Err(Error::TypeError(self.node_type_name(), "U32")),
        }
    }

    /// Extracts the inner u32 value.
    pub fn into_u32(self) -> (r: Result<u32>)
        ensures
            r is Ok <==> self is U32,
            r matches Ok(v) ==> v == self->U32_0,
            r matches Err(e) ==> type_error(&self, "U32"@, e),
    {
        match self {
            Byml::U32(v) => Ok(v),
            _ => Err(Error::TypeError(self.node_type_name(), "U32")),
        }
    }

    /// The inner i64 value.
    pub fn as_i64(&self) -> (r: Result<i64>)
        ensures
            r is Ok <==> *self is I64,
            r matches Ok(v) ==> v == self->I64_0,
            r matches Err(e) ==> type_error(self, "I64"@, e),
    {
        match self {
            Byml::I64(v) => Ok(*v),
            _ => Err(Error::TypeError(self.node_type_name(), "I64")),
        }
    }

    /// Extracts the inner i64 value.
    pub fn into_i64(self) -> (r: Result<i64>)
        ensures
            r is Ok <==> self is I64,
            r matches Ok(v) ==> v == self->I64_0,
            r matches Err(e) ==> type_error(&self, "I64"@, e),
    {
        match self {
            Byml::I64(v) => Ok(v),
            _ => Err(Error::TypeError(self.node_type_name(), "I64")),
        }
    }

    /// The inner u64 value.
    pub fn as_u64(&self) -> (r: Result<u64>)
        ensures
            r is Ok <==> *self is U64,
            r matches Ok(v) ==> v == self->U64_0,
            r matches Err(e) ==> type_error(self, "U64"@, e),
    {
        match self {
            Byml::U64(v) => Ok(*v),
            _ => Err(Error::TypeError(self.node_type_name(), "U64")),
        }
    }

    /// Extracts the inner u64 value.
    pub fn into_u64(self) -> (r: Result<u64>)
        ensures
            r is Ok <==> self is U64,
            r matches Ok(v) ==> v == self->U64_0,
            r matches Err(e) ==> type_error(&self, "U64"@, e),
    {
        match self {
            Byml::U64(v) => Ok(v),
            _ => Err(Error::TypeError(self.node_type_name(), "U64")),
        }
    }

    /// The inner 32-bit float, as its bits, value.
    pub fn as_float(&self) -> (r: Result<u32>)
        ensures
            r is Ok <==> *self is Float,
            r matches Ok(v) ==> v == self->Float_0,
            r matches Err(e) ==> type_error(self, "Float"@, e),
    {
        match self {
            Byml::Float(v) => Ok(*v),
            _ => Err(Error::TypeError(self.node_type_name(), "Float")),
        }
    }

    /// Extracts the inner 32-bit float, as its bits, value.
    pub fn into_float(self) -> (r: Result<u32>)
        ensures
            r is Ok <==> self is Float,
            r matches Ok(v) ==> v == self->Float_0,
            r matches Err(e) ==> type_error(&self, "Float"@, e),
    {
        match self {
            Byml::Float(v) => Ok(v),
            _ => Err(Error::TypeError(self.node_type_name(), "Float")),
        }
    }

    /// The inner 64-bit float, as its bits, value.
    pub fn as_double(&self) -> (r: Result<u64>)
        ensures
            r is Ok <==> *self is Double,
            r matches Ok(v) ==> v == self->Double_0,
            r matches Err(e) ==> type_error(self, "Double"@, e),
    {
        match self {
            Byml::Double(v) => Ok(*v),
            _ => Err(Error::TypeError(self.node_type_name(), "Double")),
        }
    }

    /// Extracts the inner 64-bit float, as its bits, value.
    pub fn into_double(self) -> (r: Result<u64>)
        ensures
            r is Ok <==> self is Double,
            r matches Ok(v) ==> v == self->Double_0,
            r matches Err(e) ==> type_error(&self, "Double"@, e),
    {
        match self {
            Byml::Double(v) => Ok(v),
            _ => Err(Error::TypeError(self.node_type_name(), "Double")),
        }
    }

    /// A reference to the inner string.
    pub fn as_string(&self) -> (r: Result<&String>)
        ensures
            r is Ok <==> *self is String,
            r matches Ok(v) ==> v@ == self->String_0@,
            r matches Err(e) ==> type_error(self, "String"@, e),
    {
        match self {
            Byml::String(v) => Ok(v),
            _ => Err(Error::TypeError(self.node_type_name(), "String")),
        }
    }

    /// Extracts the inner string.
    pub fn into_string(self) -> (r: Result<String>)
        ensures
            r is Ok <==> self is String,
            r matches Ok(v) ==> v == self->String_0,
            r matches Err(e) ==> type_error(&self, "String"@, e),
    {
        match self {
            Byml::String(v) => Ok(v),
            _ => Err(Error::TypeError(self.node_type_name(), "String")),
        }
    }

    /// A reference to the inner binary data.
    pub fn as_binary_data(&self) -> (r: Result<&[u8]>)
        ensures
            r is Ok <==> *self is BinaryData,
            r matches Ok(v) ==> v@ == self->BinaryData_0@,
            r matches Err(e) ==> type_error(self, "BinaryData"@, e),
    {
        match self {
            Byml::BinaryData(v) => Ok(v.as_slice()),
            _ => Err(Error::TypeError(self.node_type_name(), "BinaryData")),
        }
    }

    /// Extracts the inner binary data.
    pub fn into_binary_data(self) -> (r: Result<Vec<u8>>)
        ensures
            r is Ok <==> self is BinaryData,
            r matches Ok(v) ==> v == self->BinaryData_0,
            r matches Err(e) ==> type_error(&self, "BinaryData"@, e),
    {
        match self {
            Byml::BinaryData(v) => Ok(v),
            _ => Err(Error::TypeError(self.node_type_name(), "BinaryData")),
        }
    }

    /// A reference to the inner array.
    pub fn as_array(&self) -> (r: Result<&[Byml]>)
        ensures
            r is Ok <==> *self is Array,
            r matches Ok(v) ==> v@ == self->Array_0@,
            r matches Err(e) ==> type_error(self, "Array"@, e),
    {
        match self {
            Byml::Array(v) => Ok(v.as_slice()),
            _ => Err(Error::TypeError(self.node_type_name(), "Array")),
        }
    }

    /// Extracts the inner array.
    pub fn into_array(self) -> (r: Result<Vec<Byml>>)
        ensures
            r is Ok <==> self is Array,
            r matches Ok(v) ==> v == self->Array_0,
            r matches Err(e) ==> type_error(&self, "Array"@, e),
    {
        match self {
            Byml::Array(v) => Ok(v),
            _ => Err(Error::TypeError(self.node_type_name(), "Array")),
        }
    }

    /// A reference to the inner hash.
    pub fn as_hash(&self) -> (r: Result<&Vec<(String, Byml)>>)
        ensures
            r is Ok <==> *self is Hash,
            r matches Ok(v) ==> v@ == self->Hash_0@,
            r matches Err(e) ==> type_error(self, "Hash"@, e),
    {
        match self {
            Byml::Hash(v) => Ok(v),
            _ => Err(Error::TypeError(self.node_type_name(), "Hash")),
        }
    }

    /// Extracts the inner hash.
    pub fn into_hash(self) -> (r: Result<Vec<(String, Byml)>>)
        ensures
            r is Ok <==> self is Hash,
            r matches Ok(v) ==> v == self->Hash_0,
            r matches Err(e) ==> type_error(&self, "Hash"@, e),
    {
        match self {
            Byml::Hash(v) => Ok(v),
            _ => Err(Error::TypeError(self.node_type_name(), "Hash")),
        }
    }

    /// The node at an index: an item of an array, or the value of a key
    /// in a hash.
    pub fn index(&self, index: BymlIndex) -> (r: &Byml)
        requires
            (*self matches Byml::Array(a) && index matches BymlIndex::ArrayIdx(i) && i < a@.len())
                || (*self matches Byml::Hash(h) && index matches BymlIndex::HashIdx(k)
                && spec_hash_get(h@, k@, 0) is Some),
        ensures
            *self matches Byml::Array(a) ==> index matches BymlIndex::ArrayIdx(i) && *r == a@[i as int],
            *self matches Byml::Hash(h) ==> index matches BymlIndex::HashIdx(k) && spec_hash_get(
                h@,
                k@,
                0,
            ) == Some(*r),
    {
        match self {
            Byml::Array(a) => match index {
                BymlIndex::ArrayIdx(i) => &a[i],
                BymlIndex::HashIdx(_) => &a[0],
            },
            Byml::Hash(h) => match index {
                BymlIndex::HashIdx(k) => {
                    let mut j: usize = 0;
                    while j < h.len()
                        invariant
                            *self == Byml::Hash(*h),
                            index == BymlIndex::HashIdx(k),
                            j <= h@.len(),
                            spec_hash_get(h@, k@, 0) == spec_hash_get(h@, k@, j as int),
                            spec_hash_get(h@, k@, 0) is Some,
                        decreases h@.len() - j,
                    {
                        if str_eq(h[j].0.as_str(), k) {
                            return &h[j].1;
                        }
                        j = j + 1;
                    }
                    &h[0].1
                },
                BymlIndex::ArrayIdx(_) => &h[0].1,
            },
            _ => self,
        }
    }

    /// The node at an index, to change in place: an item of an array, or
    /// the value of a key in a hash.
    pub fn index_mut(&mut self, index: BymlIndex) -> (r: &mut Byml)
        requires
            (*old(self) matches Byml::Array(a) && index matches BymlIndex::ArrayIdx(i) && i < a@.len())
                || (*old(self) matches Byml::Hash(h) && index matches BymlIndex::HashIdx(k)
                && spec_hash_get(h@, k@, 0) is Some),
        ensures
            match (*old(self), index) {
                (Byml::Array(a), BymlIndex::ArrayIdx(i)) => *r == a@[i as int] && (*final(
                    self
                ) matches Byml::Array(b) && b@ == a@.update(i as int, *final(r))),
                (Byml::Hash(h), BymlIndex::HashIdx(k)) => spec_hash_get(h@, k@, 0) == Some(*r) && (*final(
                    self
                ) matches Byml::Hash(g) && g@ == h@.update(
                    spec_hash_pos(h@, k@, 0),
                    (h@[spec_hash_pos(h@, k@, 0)].0, *final(r)),
                )),
                _ => false,
            },
    {
        match self {
            Byml::Array(a) => match index {
                BymlIndex::ArrayIdx(i) => &mut a[i],
                BymlIndex::HashIdx(_) => &mut a[0],
            },
            Byml::Hash(h) => match index {
                BymlIndex::HashIdx(k) => {
                    proof {
                        lemma_hash_pos(h@, k@, 0);
                    }
                    let j = hash_pos(h, k);
                    let e = &mut h[j];
                    &mut e.1
                },
                BymlIndex::ArrayIdx(_) => {
                    let e = &mut h[0];
                    &mut e.1
                },
            },
            _ => self,
        }
    }
}

/// Where the first entry with the key stands; the length where there is
/// none.
fn hash_pos(h: &Vec<(String, Byml)>, k: &str) -> (r: usize)
    ensures
        r == spec_hash_pos(h@, k@, 0),
{
    proof {
        lemma_hash_pos(h@, k@, 0);
    }
    let mut j: usize = 0;
    while j < h.len()
        invariant
            j <= h@.len(),
            spec_hash_pos(h@, k@, 0) == spec_hash_pos(h@, k@, j as int),
        decreases h@.len() - j,
    {
        if str_eq(h[j].0.as_str(), k) {
            return j;
        }
        j = j + 1;
    }
    j
}

/// Where the first entry with the key stands, from entry `j` on; the length
/// where there is none.
pub open spec fn spec_hash_pos(h: Seq<(String, Byml)>, k: Seq<char>, j: int) -> int
    decreases h.len() - j,
{
    if j < 0 || j >= h.len() {
        h.len() as int
    } else if h[j].0@ == k {
        j
    } else {
        spec_hash_pos(h, k, j + 1)
    }
}

proof fn lemma_hash_pos(h: Seq<(String, Byml)>, k: Seq<char>, j: int)
    requires
        0 <= j <= h.len(),
    ensures
        j <= spec_hash_pos(h, k, j) <= h.len(),
        spec_hash_pos(h, k, j) < h.len() ==> spec_hash_get(h, k, j) == Some(h[spec_hash_pos(h, k, j)].1)
            && h[spec_hash_pos(h, k, j)].0@ == k,
        spec_hash_pos(h, k, j) == h.len() ==> spec_hash_get(h, k, j) is None,
    decreases h.len() - j,
{
    if j < h.len() && h[j].0@ != k {
        lemma_hash_pos(h, k, j + 1);
    }
}

/// The value of the first entry from `j` on with the key `k`.
pub open spec fn spec_hash_get(h: Seq<(String, Byml)>, k: Seq<char>, j: int) -> Option<Byml>
    decreases h.len() - j,
{
    if j < 0 || j >= h.len() {
        None
    } else if h[j].0@ == k {
        Some(h[j].1)
    } else {
        spec_hash_get(h, k, j + 1)
    }
}

impl Byml {
    /// A mutable reference to the inner string.
    pub fn as_mut_string(&mut self) -> (r: Result<&mut String>)
        ensures
            r is Ok <==> *old(self) is String,
            r matches Ok(v) ==> *v == old(self)->String_0 && *final(self) == Byml::String(*final(v)),
            r matches Err(e) ==> type_error(old(self), "String"@, e) && *final(self) == *old(self),
    {
        match self {
            Byml::String(v) => Ok(v),
            _ => Err(Error::TypeError(self.node_type_name(), "String")),
        }
    }

    /// A mutable reference to the inner bool value.
    pub fn as_mut_bool(&mut self) -> (r: Result<&mut bool>)
        ensures
            r is Ok <==> *old(self) is Bool,
            r matches Ok(v) ==> *v == old(self)->Bool_0 && *final(self) == Byml::Bool(*final(v)),
            r matches Err(e) ==> type_error(old(self), "Bool"@, e) && *final(self) == *old(self),
    {
        match self {
            Byml::Bool(v) => Ok(v),
            _ => Err(Error::TypeError(self.node_type_name(), "Bool")),
        }
    }

    /// A mutable reference to the inner i32 value.
    pub fn as_mut_i32(&mut self) -> (r: Result<&mut i32>)
        ensures
            r is Ok <==> *old(self) is I32,
            r matches Ok(v) ==> *v == old(self)->I32_0 && *final(self) == Byml::I32(*final(v)),
            r matches Err(e) ==> type_error(old(self), "I32"@, e) && *final(self) == *old(self),
    {
        match self {
            Byml::I32(v) => Ok(v),
            _ => Err(Error::TypeError(self.node_type_name(), "I32")),
        }
    }

    /// A mutable reference to the inner u32 value.
    pub fn as_mut_u32(&mut self) -> (r: Result<&mut u32>)
        ensures
            r is Ok <==> *old(self) is U32,
            r matches Ok(v) ==> *v == old(self)->U32_0 && *final(self) == Byml::U32(*final(v)),
            r matches Err(e) ==> type_error(old(self), "U32"@, e) && *final(self) == *old(self),
    {
        match self {
            Byml::U32(v) => Ok(v),
            _ => Err(Error::TypeError(self.node_type_name(), "U32")),
        }
    }

    /// A mutable reference to the inner i64 value.
    pub fn as_mut_i64(&mut self) -> (r: Result<&mut i64>)
        ensures
            r is Ok <==> *old(self) is I64,
            r matches Ok(v) ==> *v == old(self)->I64_0 && *final(self) == Byml::I64(*final(v)),
            r matches Err(e) ==> type_error(old(self), "I64"@, e) && *final(self) == *old(self),
    {
        match self {
            Byml::I64(v) => Ok(v),
            _ => Err(Error::TypeError(self.node_type_name(), "I64")),
        }
    }

    /// A mutable reference to the inner u64 value.
    pub fn as_mut_u64(&mut self) -> (r: Result<&mut u64>)
        ensures
            r is Ok <==> *old(self) is U64,
            r matches Ok(v) ==> *v == old(self)->U64_0 && *final(self) == Byml::U64(*final(v)),
            r matches Err(e) ==> type_error(old(self), "U64"@, e) && *final(self) == *old(self),
    {
        match self {
            Byml::U64(v) => Ok(v),
            _ => Err(Error::TypeError(self.node_type_name(), "U64")),
        }
    }

    /// A mutable reference to the inner float bits.
    pub fn as_mut_float(&mut self) -> (r: Result<&mut u32>)
        ensures
            r is Ok <==> *old(self) is Float,
            r matches Ok(v) ==> *v == old(self)->Float_0 && *final(self) == Byml::Float(*final(v)),
            r matches Err(e) ==> type_error(old(self), "Float"@, e) && *final(self) == *old(self),
    {
        match self {
            Byml::Float(v) => Ok(v),
            _ => Err(Error::TypeError(self.node_type_name(), "Float")),
        }
    }

    /// A mutable reference to the inner double bits.
    pub fn as_mut_double(&mut self) -> (r: Result<&mut u64>)
        ensures
            r is Ok <==> *old(self) is Double,
            r matches Ok(v) ==> *v == old(self)->Double_0 && *final(self) == Byml::Double(*final(v)),
            r matches Err(e) ==> type_error(old(self), "Double"@, e) && *final(self) == *old(self),
    {
        match self {
            Byml::Double(v) => Ok(v),
            _ => Err(Error::TypeError(self.node_type_name(), "Double")),
        }
    }

    /// A mutable reference to the inner binary data.
    pub fn as_mut_binary_data(&mut self) -> (r: Result<&mut Vec<u8>>)
        ensures
            r is Ok <==> *old(self) is BinaryData,
            r matches Ok(v) ==> *v == old(self)->BinaryData_0 && *final(self) == Byml::BinaryData(*final(v)),
            r matches Err(e) ==> type_error(old(self), "BinaryData"@, e) && *final(self) == *old(self),
    {
        match self {
            Byml::BinaryData(v) => Ok(v),
            _ => Err(Error::TypeError(self.node_type_name(), "BinaryData")),
        }
    }

    /// A mutable reference to the inner array.
    pub fn as_mut_array(&mut self) -> (r: Result<&mut Vec<Byml>>)
        ensures
            r is Ok <==> *old(self) is Array,
            r matches Ok(v) ==> *v == old(self)->Array_0 && *final(self) == Byml::Array(*final(v)),
            r matches Err(e) ==> type_error(old(self), "Array"@, e) && *final(self) == *old(self),
    {
        match self {
            Byml::Array(v) => Ok(v),
            _ => Err(Error::TypeError(self.node_type_name(), "Array")),
        }
    }

    /// A mutable reference to the inner hash.
    pub fn as_mut_hash(&mut self) -> (r: Result<&mut Vec<(String, Byml)>>)
        ensures
            r is Ok <==> *old(self) is Hash,
            r matches Ok(v) ==> *v == old(self)->Hash_0 && *final(self) == Byml::Hash(*final(v)),
            r matches Err(e) ==> type_error(old(self), "Hash"@, e) && *final(self) == *old(self),
    {
        match self {
            Byml::Hash(v) => Ok(v),
            _ => Err(Error::TypeError(self.node_type_name(), "Hash")),
        }
    }
}

impl From<bool> for Byml {
    fn from(value: bool) -> (r: Self) {
        Byml::Bool(value)
    }
}

impl vstd::std_specs::convert::FromSpecImpl<bool> for Byml {
    open spec fn obeys_from_spec() -> bool {
        true
    }

    open spec fn from_spec(v: bool) -> Self {
        Byml::Bool(v)
    }
}

impl From<i32> for Byml {
    fn from(value: i32) -> (r: Self) {
        Byml::I32(value)
    }
}

impl vstd::std_specs::convert::FromSpecImpl<i32> for Byml {
    open spec fn obeys_from_spec() -> bool {
        true
    }

    open spec fn from_spec(v: i32) -> Self {
        Byml::I32(v)
    }
}

impl From<u32> for Byml {
    fn from(value: u32) -> (r: Self) {
        Byml::U32(value)
    }
}

impl vstd::std_specs::convert::FromSpecImpl<u32> for Byml {
    open spec fn obeys_from_spec() -> bool {
        true
    }

    open spec fn from_spec(v: u32) -> Self {
        Byml::U32(v)
    }
}

impl From<i64> for Byml {
    fn from(value: i64) -> (r: Self) {
        Byml::I64(value)
    }
}

impl vstd::std_specs::convert::FromSpecImpl<i64> for Byml {
    open spec fn obeys_from_spec() -> bool {
        true
    }

    open spec fn from_spec(v: i64) -> Self {
        Byml::I64(v)
    }
}

impl From<u64> for Byml {
    fn from(value: u64) -> (r: Self) {
        Byml::U64(value)
    }
}

impl vstd::std_specs::convert::FromSpecImpl<u64> for Byml {
    open spec fn obeys_from_spec() -> bool {
        true
    }

    open spec fn from_spec(v: u64) -> Self {
        Byml::U64(v)
    }
}

impl From<String> for Byml {
    fn from(value: String) -> (r: Self) {
        Byml::String(value)
    }
}

impl vstd::std_specs::convert::FromSpecImpl<String> for Byml {
    open spec fn obeys_from_spec() -> bool {
        true
    }

    open spec fn from_spec(v: String) -> Self {
        Byml::String(v)
    }
}

impl From<Vec<u8>> for Byml {
    fn from(value: Vec<u8>) -> (r: Self) {
        Byml::BinaryData(value)
    }
}

impl vstd::std_specs::convert::FromSpecImpl<Vec<u8>> for Byml {
    open spec fn obeys_from_spec() -> bool {
        true
    }

    open spec fn from_spec(v: Vec<u8>) -> Self {
        Byml::BinaryData(v)
    }
}

impl From<Vec<Byml>> for Byml {
    fn from(value: Vec<Byml>) -> (r: Self) {
        Byml::Array(value)
    }
}

impl vstd::std_specs::convert::FromSpecImpl<Vec<Byml>> for Byml {
    open spec fn obeys_from_spec() -> bool {
        true
    }

    open spec fn from_spec(v: Vec<Byml>) -> Self {
        Byml::Array(v)
    }
}

impl From<Vec<(String, Byml)>> for Byml {
    fn from(value: Vec<(String, Byml)>) -> (r: Self) {
        Byml::Hash(value)
    }
}

impl vstd::std_specs::convert::FromSpecImpl<Vec<(String, Byml)>> for Byml {
    open spec fn obeys_from_spec() -> bool {
        true
    }

    open spec fn from_spec(v: Vec<(String, Byml)>) -> Self {
        Byml::Hash(v)
    }
}

impl Default for Byml {
    fn default() -> (r: Self)
        ensures
            r == Byml::Null,
    {
        Byml::Null
    }
}

} // verus!
