//! Nintendo binary YAML (BYML) node types.
use vstd::prelude::*;
use crate::yaml::{str_eq, TagBasedType};
use crate::yaz0::{spec_decode, spec_has_magic, spec_payload};
use crate::{Error, Result};

pub mod reader;
pub mod writer;
pub mod roundtrip;
pub mod access;

pub use reader::{
    byml_read_fuel, node_agrees, spec_byml_fault_error, spec_byml_read, spec_document,
    spec_from_binary_result, BymlFault, Read,
};

verus! {

/// The type of a BYML node, as its one-byte tag gives it.
#[derive(Debug, Clone, Copy, PartialEq, Eq, Structural)]
pub enum NodeType {
    /// 0xA0.
    String,
    /// 0xA1.
    Binary,
    /// 0xC0.
    Array,
    /// 0xC1.
    Hash,
    /// 0xC2.
    StringTable,
    /// 0xD0.
    Bool,
    /// 0xD1.
    I32,
    /// 0xD2.
    Float,
    /// 0xD3.
    U32,
    /// 0xD4.
    I64,
    /// 0xD5.
    U64,
    /// 0xD6.
    Double,
    /// 0xFF.
    Null,
}

/// The tag byte of each node type.
pub open spec fn spec_node_tag(t: NodeType) -> u8 {
    match t {
        NodeType::String => 0xA0,
        NodeType::Binary => 0xA1,
        NodeType::Array => 0xC0,
        NodeType::Hash => 0xC1,
        NodeType::StringTable => 0xC2,
        NodeType::Bool => 0xD0,
        NodeType::I32 => 0xD1,
        NodeType::Float => 0xD2,
        NodeType::U32 => 0xD3,
        NodeType::I64 => 0xD4,
        NodeType::U64 => 0xD5,
        NodeType::Double => 0xD6,
        NodeType::Null => 0xFF,
    }
}

/// The node type that a tag byte stands for, if any.
pub open spec fn spec_tag_type(b: u8) -> Option<NodeType> {
    if b == 0xA0 {
        Some(NodeType::String)
    } else if b == 0xA1 {
        Some(NodeType::Binary)
    } else if b == 0xC0 {
        Some(NodeType::Array)
    } else if b == 0xC1 {
        Some(NodeType::Hash)
    } else if b == 0xC2 {
        Some(NodeType::StringTable)
    } else if b == 0xD0 {
        Some(NodeType::Bool)
    } else if b == 0xD1 {
        Some(NodeType::I32)
    } else if b == 0xD2 {
        Some(NodeType::Float)
    } else if b == 0xD3 {
        Some(NodeType::U32)
    } else if b == 0xD4 {
        Some(NodeType::I64)
    } else if b == 0xD5 {
        Some(NodeType::U64)
    } else if b == 0xD6 {
        Some(NodeType::Double)
    } else if b == 0xFF {
        Some(NodeType::Null)
    } else {
        None
    }
}

/// The name of each node type, as its variant is written.
pub open spec fn spec_node_type_name(t: NodeType) -> Seq<char> {
    match t {
        NodeType::String => "String"@,
        NodeType::Binary => "Binary"@,
        NodeType::Array => "Array"@,
        NodeType::Hash => "Hash"@,
        NodeType::StringTable => "StringTable"@,
        NodeType::Bool => "Bool"@,
        NodeType::I32 => "I32"@,
        NodeType::Float => "Float"@,
        NodeType::U32 => "U32"@,
        NodeType::I64 => "I64"@,
        NodeType::U64 => "U64"@,
        NodeType::Double => "Double"@,
        NodeType::Null => "Null"@,
    }
}

impl NodeType {
    /// The node type with this tag, if any.
    pub fn from_tag(tag: u8) -> (r: Option<NodeType>)
        ensures
            r == spec_tag_type(tag),
            r matches Some(t) ==> spec_node_tag(t) == tag,
            r is None ==> forall|t: NodeType| spec_node_tag(t) != tag,
    {
        match tag {
            0xA0 => Some(NodeType::String),
            0xA1 => Some(NodeType::Binary),
            0xC0 => Some(NodeType::Array),
            0xC1 => Some(NodeType::Hash),
            0xC2 => Some(NodeType::StringTable),
            0xD0 => Some(NodeType::Bool),
            0xD1 => Some(NodeType::I32),
            0xD2 => Some(NodeType::Float),
            0xD3 => Some(NodeType::U32),
            0xD4 => Some(NodeType::I64),
            0xD5 => Some(NodeType::U64),
            0xD6 => Some(NodeType::Double),
            0xFF => Some(NodeType::Null),
            _ => None,
        }
    }

    /// The tag byte of the node type.
    pub fn tag(&self) -> (r: u8)
        ensures
            r == spec_node_tag(*self),
    {
        match self {
            NodeType::String => 0xA0,
            NodeType::Binary => 0xA1,
            NodeType::Array => 0xC0,
            NodeType::Hash => 0xC1,
            NodeType::StringTable => 0xC2,
            NodeType::Bool => 0xD0,
            NodeType::I32 => 0xD1,
            NodeType::Float => 0xD2,
            NodeType::U32 => 0xD3,
            NodeType::I64 => 0xD4,
            NodeType::U64 => 0xD5,
            NodeType::Double => 0xD6,
            NodeType::Null => 0xFF,
        }
    }

    /// The name of the node type, as its variant is written.
    pub fn name(&self) -> (r: String)
        ensures
            r@ == spec_node_type_name(*self),
    {
        let s: &str = match self {
            NodeType::String => "String",
            NodeType::Binary => "Binary",
            NodeType::Array => "Array",
            NodeType::Hash => "Hash",
            NodeType::StringTable => "StringTable",
            NodeType::Bool => "Bool",
            NodeType::I32 => "I32",
            NodeType::Float => "Float",
            NodeType::U32 => "U32",
            NodeType::I64 => "I64",
            NodeType::U64 => "U64",
            NodeType::Double => "Double",
            NodeType::Null => "Null",
        };
        s.to_owned()
    }
}

/// Whether nodes of a type hold other nodes: arrays and hashes.
pub fn is_container_type(node_type: NodeType) -> (r: bool)
    ensures
        r == (node_type == NodeType::Array || node_type == NodeType::Hash),
{
    match node_type {
        NodeType::Array | NodeType::Hash => true,
        _ => false,
    }
}

/// Whether a BYML version is supported: 2 to 7.
pub fn is_valid_version(version: u16) -> (r: bool)
    ensures
        r == (2 <= version <= 7),
{
    version >= 2 && version <= 7
}

/// Whether a YAML tag marks binary data.
pub fn is_binary_tag(tag: &str) -> (r: bool)
    ensures
        r == (tag@ == "tag:yaml.org,2002:binary"@ || tag@ == "!!binary"@),
{
    str_eq(tag, "tag:yaml.org,2002:binary") || str_eq(tag, "!!binary")
}

/// The type that a BYML-specific YAML tag asks for.
pub fn recognize_tag(tag: &str) -> (r: Option<TagBasedType>)
    ensures
        r == if tag@ == "!f64"@ {
            Some(TagBasedType::Float)
        } else if tag@ == "!u"@ || tag@ == "!l"@ || tag@ == "!ul"@ {
            Some(TagBasedType::Int)
        } else if tag@ == "tag:yaml.org,2002:binary"@ || tag@ == "!!binary"@ || tag@ == "!!file"@ {
            Some(TagBasedType::Str)
        } else {
            None
        },
{
    if str_eq(tag, "!f64") {
        Some(TagBasedType::Float)
    } else if str_eq(tag, "!u") || str_eq(tag, "!l") || str_eq(tag, "!ul") {
        Some(TagBasedType::Int)
    } else if str_eq(tag, "tag:yaml.org,2002:binary") || str_eq(tag, "!!binary") || str_eq(
        tag,
        "!!file",
    ) {
        Some(TagBasedType::Str)
    } else {
        None
    }
}

/// Convenience type used for indexing into BYML nodes.
#[derive(Debug, Clone, Copy, PartialEq, Eq)]
pub enum BymlIndex<'a> {
    /// Index into a hash node. The key is a string.
    HashIdx(&'a str),
    /// Index into an array node. The index is an integer.
    ArrayIdx(usize),
}


/// A BYML document or node. Floating-point values are held as their bits.
#[derive(Debug, PartialEq, Hash)]
pub enum Byml {
    /// String value.
    String(String),
    /// Binary data.
    BinaryData(Vec<u8>),
    /// Array of nodes.
    Array(Vec<Byml>),
    /// Hash node: keys with their nodes, in the order the keys were first
    /// read; no key occurs twice.
    Hash(Vec<(String, Byml)>),
    /// Boolean value.
    Bool(bool),
    /// 32-bit signed integer.
    I32(i32),
    /// 32-bit float, as its bits.
    Float(u32),
    /// 32-bit unsigned integer.
    U32(u32),
    /// 64-bit signed integer.
    I64(i64),
    /// 64-bit unsigned integer.
    U64(u64),
    /// 64-bit float, as its bits.
    Double(u64),
    /// Null value.
    Null,
}

/// The value of a BYML node, with sequences for its parts.
pub enum ByNode {
    String(Seq<char>),
    BinaryData(Seq<u8>),
    Array(Seq<ByNode>),
    Hash(Seq<(Seq<char>, ByNode)>),
    Bool(bool),
    I32(i32),
    Float(u32),
    U32(u32),
    I64(i64),
    U64(u64),
    Double(u64),
    Null,
}

impl Byml {
    /// The node's value.
    pub open spec fn node(&self) -> ByNode
        decreases self,
    {
        match self {
            Byml::String(s) => ByNode::String(s@),
            Byml::BinaryData(v) => ByNode::BinaryData(v@),
            Byml::Array(v) => ByNode::Array(
                Seq::new(
                    v.len() as nat,
                    |i: int|
                        if 0 <= i < v.len() {
                            v@[i].node()
                        } else {
                            ByNode::Null
                        },
                ),
            ),
            Byml::Hash(v) => ByNode::Hash(
                Seq::new(
                    v.len() as nat,
                    |i: int|
                        if 0 <= i < v.len() {
                            (v@[i].0@, v@[i].1.node())
                        } else {
                            (Seq::empty(), ByNode::Null)
                        },
                ),
            ),
            Byml::Bool(b) => ByNode::Bool(*b),
            Byml::I32(x) => ByNode::I32(*x),
            Byml::Float(x) => ByNode::Float(*x),
            Byml::U32(x) => ByNode::U32(*x),
            Byml::I64(x) => ByNode::I64(*x),
            Byml::U64(x) => ByNode::U64(*x),
            Byml::Double(x) => ByNode::Double(*x),
            Byml::Null => ByNode::Null,
        }
    }
}

impl Byml {
    /// Load a document from binary data, decompressing Yaz0 data first.
    pub fn from_binary(data: &[u8]) -> (r: Result<Byml>)
        ensures
            spec_payload(data@) matches Some(b) ==> spec_from_binary_result(b, r),
            spec_has_magic(data@) && data@.len() < 0x16 ==> r matches Err(
                Error::InsufficientData(_, _),
            ),
            spec_has_magic(data@) && data@.len() >= 0x16 && spec_decode(data@) is None ==> r matches Err(
                Error::InvalidData(_),
            ),
    {
        if data.len() >= 4 && data[0] == 0x59 && data[1] == 0x61 && data[2] == 0x7A && data[3]
            == 0x30 {
            match crate::yaz0::decompress(data) {
                Ok(bytes) => reader::read_document(bytes.as_slice()),
                Err(e) => Err(e),
            }
        } else {
            reader::read_document(data)
        }
    }
}

} // verus!
