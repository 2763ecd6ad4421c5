//! Reading BYML documents from bytes.
use vstd::prelude::*;
use crate::{Endian, Error, Result};
use crate::util::{chars_of, read_u16, read_u32, spec_read_u16, spec_read_u32, str_chars};
use super::{ByNode, Byml, NodeType, is_container_type, is_valid_version, spec_node_tag, spec_node_type_name, spec_tag_type};

verus! {

/// Why reading a BYML document stops.
#[derive(Debug, Clone, Copy, PartialEq, Eq, Structural)]
pub enum BymlFault {
    /// The data is shorter than the 0x10-byte header.
    ShortHeader,
    /// The version is not 2 to 7.
    BadVersion,
    /// A read goes past the end of the data.
    Eof,
    /// A node type byte is not one of the known tags.
    BadTag,
    /// A string table offset leads to another kind of node: the one found.
    NotStringTable(NodeType),
    /// A string index is past the end of its table.
    BadStringIndex,
    /// A string table entry ends before it starts.
    BadStringRange,
    /// An offset goes past the 32-bit range.
    BadOffset,
    /// A value slot holds the type of a container or string table.
    BadValueType,
    /// A container offset leads to a node that is no container.
    BadContainerType,
}

/// The outcome of reading: a value, a fault, or neither, where the fuel
/// runs out before containers stop nesting (as they never do where an
/// offset leads back to a container that holds it).
pub enum Read<T> {
    /// The value read.
    Value(T),
    /// The fault that stops reading.
    Fault(BymlFault),
    /// No outcome with the fuel given.
    Stuck,
}

/// The 64-bit integer at `off`.
pub open spec fn spec_read_u64(d: Seq<u8>, off: int, e: Endian) -> u64 {
    let a = spec_read_u32(d, off, e) as int;
    let b = spec_read_u32(d, off + 4, e) as int;
    match e {
        Endian::Big => (a * 0x1_0000_0000 + b) as u64,
        Endian::Little => (b * 0x1_0000_0000 + a) as u64,
    }
}

/// The 24-bit integer at `off`.
pub open spec fn spec_read_u24(d: Seq<u8>, off: int, e: Endian) -> u32 {
    match e {
        Endian::Big => (d[off] * 65536 + d[off + 1] * 256 + d[off + 2]) as u32,
        Endian::Little => (d[off + 2] * 65536 + d[off + 1] * 256 + d[off]) as u32,
    }
}

/// `n` bytes can be read at `off`.
pub open spec fn fits(d: Seq<u8>, off: int, n: int) -> bool {
    0 <= off && off + n <= d.len()
}

/// The node type whose tag stands at `off`.
pub open spec fn rd_type(d: Seq<u8>, off: int) -> Read<NodeType> {
    if !fits(d, off, 1) {
        Read::Fault(BymlFault::Eof)
    } else {
        match spec_tag_type(d[off]) {
            Some(t) => Read::Value(t),
            None => Read::Fault(BymlFault::BadTag),
        }
    }
}

/// A string table: its offset and number of strings (offset 0: none).
pub open spec fn spec_string_table(d: Seq<u8>, e: Endian, offset: u32) -> Read<(u32, u32)> {
    if offset == 0 {
        Read::Value((0, 0))
    } else {
        match rd_type(d, offset as int) {
            Read::Value(t) => if !fits(d, offset + 1, 3) {
                Read::Fault(BymlFault::Eof)
            } else if t != NodeType::StringTable {
                Read::Fault(BymlFault::NotStringTable(t))
            } else {
                Read::Value((offset, spec_read_u24(d, offset + 1, e)))
            },
            Read::Fault(f) => Read::Fault(f),
            Read::Stuck => Read::Stuck,
        }
    }
}

/// The bytes of a string from `pos` up to a NUL, at most `max_len` of
/// them.
pub open spec fn spec_read_bytes(d: Seq<u8>, pos: int, max_len: nat, acc: Seq<u8>) -> Read<Seq<u8>>
    decreases d.len() - pos,
{
    if !fits(d, pos, 1) {
        Read::Fault(BymlFault::Eof)
    } else if d[pos] == 0 || acc.len() >= max_len {
        Read::Value(acc)
    } else {
        spec_read_bytes(d, pos + 1, max_len, acc.push(d[pos]))
    }
}

/// String `index` of a string table: its bytes, up to a NUL and the start
/// of the next string, decoded as UTF-8 (lossily where they are not).
pub open spec fn spec_get_string(d: Seq<u8>, e: Endian, table: (u32, u32), index: u32) -> Read<
    Seq<char>,
> {
    if index >= table.1 {
        Read::Fault(BymlFault::BadStringIndex)
    } else if table.0 + 4 + 4 * index > u32::MAX {
        Read::Fault(BymlFault::BadOffset)
    } else {
        let at = table.0 + 4 + 4 * index;
        if !fits(d, at, 8) {
            Read::Fault(BymlFault::Eof)
        } else {
            let off = spec_read_u32(d, at, e);
            let next = spec_read_u32(d, at + 4, e);
            if next < off {
                Read::Fault(BymlFault::BadStringRange)
            } else if table.0 + off > u32::MAX {
                Read::Fault(BymlFault::BadOffset)
            } else {
                match spec_read_bytes(d, table.0 + off, (next - off) as nat, Seq::empty()) {
                    Read::Value(b) => Read::Value(str_chars(b)),
                    Read::Fault(f) => Read::Fault(f),
                    Read::Stuck => Read::Stuck,
                }
            }
        }
    }
}

/// What a document's reader knows besides the bytes: its byte order and
/// its string and key tables.
#[derive(Clone, Copy)]
pub struct ReadCtx {
    pub e: Endian,
    pub strings: (u32, u32),
    pub keys: (u32, u32),
}

/// A value node of type `t` at `offset`.
pub open spec fn spec_value_node(d: Seq<u8>, c: ReadCtx, offset: u32, t: NodeType) -> Read<ByNode> {
    if !fits(d, offset as int, 4) {
        Read::Fault(BymlFault::Eof)
    } else {
        let raw = spec_read_u32(d, offset as int, c.e);
        match t {
            NodeType::String => match spec_get_string(d, c.e, c.strings, raw) {
                Read::Value(s) => Read::Value(ByNode::String(s)),
                Read::Fault(f) => Read::Fault(f),
                Read::Stuck => Read::Stuck,
            },
            NodeType::Binary => if !fits(d, raw as int, 4) {
                Read::Fault(BymlFault::Eof)
            } else {
                let size = spec_read_u32(d, raw as int, c.e);
                if !fits(d, raw + 4, size as int) {
                    Read::Fault(BymlFault::Eof)
                } else {
                    Read::Value(ByNode::BinaryData(d.subrange(raw + 4, raw + 4 + size)))
                }
            },
            NodeType::Bool => Read::Value(ByNode::Bool(raw != 0)),
            NodeType::I32 => Read::Value(ByNode::I32(raw as i32)),
            NodeType::U32 => Read::Value(ByNode::U32(raw)),
            NodeType::Float => Read::Value(ByNode::Float(raw)),
            NodeType::I64 => if !fits(d, raw as int, 8) {
                Read::Fault(BymlFault::Eof)
            } else {
                Read::Value(ByNode::I64(spec_read_u64(d, raw as int, c.e) as i64))
            },
            NodeType::U64 => if !fits(d, raw as int, 8) {
                Read::Fault(BymlFault::Eof)
            } else {
                Read::Value(ByNode::U64(spec_read_u64(d, raw as int, c.e)))
            },
            NodeType::Double => if !fits(d, raw as int, 8) {
                Read::Fault(BymlFault::Eof)
            } else {
                Read::Value(ByNode::Double(spec_read_u64(d, raw as int, c.e)))
            },
            NodeType::Null => Read::Value(ByNode::Null),
            _ => Read::Fault(BymlFault::BadValueType),
        }
    }
}

/// Adding an entry to a hash node: a key already there takes the new node.
pub open spec fn spec_hash_insert(entries: Seq<(Seq<char>, ByNode)>, key: Seq<char>, node: ByNode) -> Seq<
    (Seq<char>, ByNode),
> {
    if exists|j: int| 0 <= j < entries.len() && entries[j].0 == key {
        let j = choose|j: int| 0 <= j < entries.len() && entries[j].0 == key;
        entries.update(j, (key, node))
    } else {
        entries.push((key, node))
    }
}

/// A child of a container: a container node by its offset, or a value.
pub open spec fn spec_child(d: Seq<u8>, c: ReadCtx, offset: u32, t: NodeType, fuel: nat) -> Read<
    ByNode,
>
    decreases fuel, 3nat, 0nat,
{
    if t == NodeType::Array || t == NodeType::Hash {
        if !fits(d, offset as int, 4) {
            Read::Fault(BymlFault::Eof)
        } else {
            spec_container(d, c, spec_read_u32(d, offset as int, c.e), fuel)
        }
    } else {
        spec_value_node(d, c, offset, t)
    }
}

/// A container node at `offset`; each level of nesting takes one unit of
/// `fuel`.
pub open spec fn spec_container(d: Seq<u8>, c: ReadCtx, offset: u32, fuel: nat) -> Read<ByNode>
    decreases fuel, 2nat, 0nat,
{
    match rd_type(d, offset as int) {
        Read::Value(t) => if !fits(d, offset + 1, 3) {
            Read::Fault(BymlFault::Eof)
        } else {
            let size = spec_read_u24(d, offset + 1, c.e);
            if t == NodeType::Array {
                if values_offset(offset, size) > u32::MAX {
                    Read::Fault(BymlFault::BadOffset)
                } else {
                    match spec_array_from(d, c, offset, size, 0, Seq::empty(), fuel) {
                        Read::Value(items) => Read::Value(ByNode::Array(items)),
                        Read::Fault(f) => Read::Fault(f),
                        Read::Stuck => Read::Stuck,
                    }
                }
            } else if t == NodeType::Hash {
                match spec_hash_from(d, c, offset, size, 0, Seq::empty(), fuel) {
                    Read::Value(entries) => Read::Value(ByNode::Hash(entries)),
                    Read::Fault(f) => Read::Fault(f),
                    Read::Stuck => Read::Stuck,
                }
            } else {
                Read::Fault(BymlFault::BadContainerType)
            }
        },
        Read::Fault(f) => Read::Fault(f),
        Read::Stuck => Read::Stuck,
    }
}

/// Where an array's values start: after its header and its types, padded
/// to 4 bytes.
pub open spec fn values_offset(offset: u32, size: u32) -> int {
    offset + 4 + size + (4 - size % 4) % 4
}

/// The items of an array node from item `i` on, after `acc`.
pub open spec fn spec_array_from(
    d: Seq<u8>,
    c: ReadCtx,
    offset: u32,
    size: u32,
    i: u32,
    acc: Seq<ByNode>,
    fuel: nat,
) -> Read<Seq<ByNode>>
    decreases fuel, 1nat, size - i,
{
    if i >= size {
        Read::Value(acc)
    } else if fuel == 0 {
        Read::Stuck
    } else if values_offset(offset, size) + 4 * i > u32::MAX {
        Read::Fault(BymlFault::BadOffset)
    } else {
        match rd_type(d, offset + 4 + i) {
            Read::Value(t) => match spec_child(
                d,
                c,
                (values_offset(offset, size) + 4 * i) as u32,
                t,
                (fuel - 1) as nat,
            ) {
                Read::Value(node) => spec_array_from(
                    d,
                    c,
                    offset,
                    size,
                    (i + 1) as u32,
                    acc.push(node),
                    fuel,
                ),
                Read::Fault(f) => Read::Fault(f),
                Read::Stuck => Read::Stuck,
            },
            Read::Fault(f) => Read::Fault(f),
            Read::Stuck => Read::Stuck,
        }
    }
}

/// The entries of a hash node from entry `i` on, added to `acc`.
pub open spec fn spec_hash_from(
    d: Seq<u8>,
    c: ReadCtx,
    offset: u32,
    size: u32,
    i: u32,
    acc: Seq<(Seq<char>, ByNode)>,
    fuel: nat,
) -> Read<Seq<(Seq<char>, ByNode)>>
    decreases fuel, 1nat, size - i,
{
    if i >= size {
        Read::Value(acc)
    } else if fuel == 0 {
        Read::Stuck
    } else if offset + 4 + 8 * i + 4 > u32::MAX {
        Read::Fault(BymlFault::BadOffset)
    } else {
        let at = offset + 4 + 8 * i;
        if !fits(d, at, 3) {
            Read::Fault(BymlFault::Eof)
        } else {
            let name_idx = spec_read_u24(d, at, c.e);
            match rd_type(d, at + 3) {
                Read::Value(t) => match spec_get_string(d, c.e, c.keys, name_idx) {
                    Read::Value(key) => match spec_child(
                        d,
                        c,
                        (at + 4) as u32,
                        t,
                        (fuel - 1) as nat,
                    ) {
                        Read::Value(node) => spec_hash_from(
                            d,
                            c,
                            offset,
                            size,
                            (i + 1) as u32,
                            spec_hash_insert(acc, key, node),
                            fuel,
                        ),
                        Read::Fault(f) => Read::Fault(f),
                        Read::Stuck => Read::Stuck,
                    },
                    Read::Fault(f) => Read::Fault(f),
                    Read::Stuck => Read::Stuck,
                },
                Read::Fault(f) => Read::Fault(f),
                Read::Stuck => Read::Stuck,
            }
        }
    }
}

/// Reading a document with the given fuel: the header (magic `BY` for big
/// endian, `YB` for little; the header's own fields are little-endian only
/// with `YB`), the version, the string table and the key table, then the
/// root node (offset 0: null).
pub open spec fn spec_document(d: Seq<u8>, fuel: nat) -> Read<ByNode> {
    if d.len() < 0x10 {
        Read::Fault(BymlFault::ShortHeader)
    } else {
        let he = if d[0] == 0x59 && d[1] == 0x42 {
            Endian::Little
        } else {
            Endian::Big
        };
        let version = spec_read_u16(d, 2, he);
        if !(2 <= version <= 7) {
            Read::Fault(BymlFault::BadVersion)
        } else {
            let e = if d[0] == 0x42 && d[1] == 0x59 {
                Endian::Big
            } else {
                Endian::Little
            };
            let key_off = spec_read_u32(d, 4, he);
            let str_off = spec_read_u32(d, 8, he);
            let root = spec_read_u32(d, 12, he);
            match spec_string_table(d, e, str_off) {
                Read::Value(strings) => match spec_string_table(d, e, key_off) {
                    Read::Value(keys) => if root == 0 {
                        Read::Value(ByNode::Null)
                    } else {
                        spec_container(d, ReadCtx { e, strings, keys }, root, fuel)
                    },
                    Read::Fault(f) => Read::Fault(f),
                    Read::Stuck => Read::Stuck,
                },
                Read::Fault(f) => Read::Fault(f),
                Read::Stuck => Read::Stuck,
            }
        }
    }
}

/// Reading a document: the outcome with one unit of fuel for each byte of
/// the data. Containers at distinct offsets nest no deeper than that; where
/// they nest deeper, an offset leads back to a container that holds it.
pub open spec fn spec_byml_read(d: Seq<u8>) -> Read<ByNode> {
    spec_document(d, d.len())
}

proof fn lemma_child_fuel(d: Seq<u8>, c: ReadCtx, offset: u32, t: NodeType, f1: nat, f2: nat)
    requires
        f1 <= f2,
        !(spec_child(d, c, offset, t, f1) is Stuck),
    ensures
        spec_child(d, c, offset, t, f2) == spec_child(d, c, offset, t, f1),
    decreases f1, 3nat, 0int,
{
    if (t == NodeType::Array || t == NodeType::Hash) && fits(d, offset as int, 4) {
        lemma_container_fuel(d, c, spec_read_u32(d, offset as int, c.e), f1, f2);
    }
}

proof fn lemma_container_fuel(d: Seq<u8>, c: ReadCtx, offset: u32, f1: nat, f2: nat)
    requires
        f1 <= f2,
        !(spec_container(d, c, offset, f1) is Stuck),
    ensures
        spec_container(d, c, offset, f2) == spec_container(d, c, offset, f1),
    decreases f1, 2nat, 0int,
{
    if let Read::Value(t) = rd_type(d, offset as int) {
        if fits(d, offset + 1, 3) {
            let size = spec_read_u24(d, offset + 1, c.e);
            if t == NodeType::Array && values_offset(offset, size) <= u32::MAX {
                lemma_array_fuel(d, c, offset, size, 0, Seq::empty(), f1, f2);
            } else if t == NodeType::Hash {
                lemma_hash_fuel(d, c, offset, size, 0, Seq::empty(), f1, f2);
            }
        }
    }
}

proof fn lemma_array_fuel(
    d: Seq<u8>,
    c: ReadCtx,
    offset: u32,
    size: u32,
    i: u32,
    acc: Seq<ByNode>,
    f1: nat,
    f2: nat,
)
    requires
        f1 <= f2,
        !(spec_array_from(d, c, offset, size, i, acc, f1) is Stuck),
    ensures
        spec_array_from(d, c, offset, size, i, acc, f2) == spec_array_from(
            d,
            c,
            offset,
            size,
            i,
            acc,
            f1,
        ),
    decreases f1, 1nat, size - i,
{
    if i < size && f1 > 0 && values_offset(offset, size) + 4 * i <= u32::MAX {
        if let Read::Value(t) = rd_type(d, offset + 4 + i) {
            let at = (values_offset(offset, size) + 4 * i) as u32;
            let child = spec_child(d, c, at, t, (f1 - 1) as nat);
            if !(child is Stuck) {
                lemma_child_fuel(d, c, at, t, (f1 - 1) as nat, (f2 - 1) as nat);
            }
            if let Read::Value(node) = child {
                lemma_array_fuel(d, c, offset, size, (i + 1) as u32, acc.push(node), f1, f2);
            }
        }
    }
}

proof fn lemma_hash_fuel(
    d: Seq<u8>,
    c: ReadCtx,
    offset: u32,
    size: u32,
    i: u32,
    acc: Seq<(Seq<char>, ByNode)>,
    f1: nat,
    f2: nat,
)
    requires
        f1 <= f2,
        !(spec_hash_from(d, c, offset, size, i, acc, f1) is Stuck),
    ensures
        spec_hash_from(d, c, offset, size, i, acc, f2) == spec_hash_from(
            d,
            c,
            offset,
            size,
            i,
            acc,
            f1,
        ),
    decreases f1, 1nat, size - i,
{
    if i < size && f1 > 0 && offset + 4 + 8 * i + 4 <= u32::MAX {
        let at = offset + 4 + 8 * i;
        if fits(d, at, 3) {
            if let Read::Value(t) = rd_type(d, at + 3) {
                if let Read::Value(key) = spec_get_string(d, c.e, c.keys, spec_read_u24(d, at, c.e)) {
                    let child = spec_child(d, c, (at + 4) as u32, t, (f1 - 1) as nat);
                    if !(child is Stuck) {
                        lemma_child_fuel(d, c, (at + 4) as u32, t, (f1 - 1) as nat, (f2 - 1) as nat);
                    }
                    if let Read::Value(node) = child {
                        lemma_hash_fuel(
                            d,
                            c,
                            offset,
                            size,
                            (i + 1) as u32,
                            spec_hash_insert(acc, key, node),
                            f1,
                            f2,
                        );
                    }
                }
            }
        }
    }
}

/// Fuel beyond what reading a document needs changes nothing: where `f`
/// units give an outcome, so does every larger fuel, and the same one; in
/// particular the outcome of `spec_byml_read` where `f` is at most the
/// length of the data.
pub proof fn byml_read_fuel(d: Seq<u8>, f: nat, g: nat)
    requires
        !(spec_document(d, f) is Stuck),
        f <= g,
    ensures
        spec_document(d, g) == spec_document(d, f),
        f <= d.len() ==> spec_byml_read(d) == spec_document(d, f),
{
    byml_doc_fuel(d, f, g);
    if f <= d.len() {
        byml_doc_fuel(d, f, d.len());
    }
}

proof fn byml_doc_fuel(d: Seq<u8>, f: nat, g: nat)
    requires
        !(spec_document(d, f) is Stuck),
        f <= g,
    ensures
        spec_document(d, g) == spec_document(d, f),
{
    if d.len() >= 0x10 {
        let he = if d[0] == 0x59 && d[1] == 0x42 {
            Endian::Little
        } else {
            Endian::Big
        };
        let e = if d[0] == 0x42 && d[1] == 0x59 {
            Endian::Big
        } else {
            Endian::Little
        };
        let root = spec_read_u32(d, 12, he);
        if let Read::Value(strings) = spec_string_table(d, e, spec_read_u32(d, 8, he)) {
            if let Read::Value(keys) = spec_string_table(d, e, spec_read_u32(d, 4, he)) {
                let c = ReadCtx { e, strings, keys };
                if root != 0 && !(spec_container(d, c, root, f) is Stuck) {
                    lemma_container_fuel(d, c, root, f, g);
                }
            }
        }
    }
}

/// The error where containers nest deeper than the fuel allows.
pub open spec fn too_deep() -> Error {
    Error::InvalidData("BYML containers nest too deeply")
}

/// The error that each fault gives.
pub open spec fn spec_byml_fault_error(f: BymlFault, e: Error) -> bool {
    match f {
        BymlFault::ShortHeader => e == Error::InvalidData("Insufficient data for header"),
        BymlFault::BadVersion => e == Error::InvalidData("Unsupported BYML version (2 or 3 only)"),
        BymlFault::Eof => e is InsufficientData,
        BymlFault::BadTag => e == Error::InvalidData("Invalid BYML node type"),
        BymlFault::NotStringTable(t) => e matches Error::TypeError(found, expected) && found@
            == spec_node_type_name(t) && expected@ == "string table"@,
        BymlFault::BadStringIndex => e == Error::InvalidData("Invalid string table entry index"),
        BymlFault::BadStringRange => e == Error::InvalidData("Invalid string table entry"),
        BymlFault::BadOffset => e == Error::InvalidData("BYML offset out of range"),
        BymlFault::BadValueType => e == Error::InvalidData("Invalid value node type"),
        BymlFault::BadContainerType => e == Error::InvalidData("Invalid container node type"),
    }
}

/// A result agrees with an outcome: it holds the same value, or the error
/// of the same fault.
pub open spec fn read_agrees<T>(s: Read<T>, r: Result<T>) -> bool {
    match s {
        Read::Value(v) => r matches Ok(x) && x == v,
        Read::Fault(f) => r matches Err(e) && spec_byml_fault_error(f, e),
        Read::Stuck => r matches Err(e) && e == too_deep(),
    }
}

/// A string result agrees with an outcome.
pub open spec fn string_agrees(s: Read<Seq<char>>, r: Result<String>) -> bool {
    match s {
        Read::Value(v) => r matches Ok(x) && x@ == v,
        Read::Fault(f) => r matches Err(e) && spec_byml_fault_error(f, e),
        Read::Stuck => r matches Err(e) && e == too_deep(),
    }
}

/// A node result agrees with an outcome.
pub open spec fn node_agrees(s: Read<ByNode>, r: Result<Byml>) -> bool {
    match s {
        Read::Value(v) => r matches Ok(x) && x.node() == v,
        Read::Fault(f) => r matches Err(e) && spec_byml_fault_error(f, e),
        Read::Stuck => r matches Err(e) && e == too_deep(),
    }
}

/// The values of a sequence of nodes.
pub open spec fn nodes_of(s: Seq<Byml>) -> Seq<ByNode> {
    Seq::new(s.len(), |i: int| s[i].node())
}

/// The values of a sequence of hash entries.
pub open spec fn entries_of(s: Seq<(String, Byml)>) -> Seq<(Seq<char>, ByNode)> {
    Seq::new(s.len(), |i: int| (s[i].0@, s[i].1.node()))
}

/// No key occurs twice.
pub open spec fn keys_distinct(s: Seq<(Seq<char>, ByNode)>) -> bool {
    forall|i: int, j: int| 0 <= i < j < s.len() ==> s[i].0 != s[j].0
}

/// An array result agrees with an outcome.
pub open spec fn items_agree(s: Read<Seq<ByNode>>, r: Result<Vec<Byml>>) -> bool {
    match s {
        Read::Value(v) => r matches Ok(x) && nodes_of(x@) == v,
        Read::Fault(f) => r matches Err(e) && spec_byml_fault_error(f, e),
        Read::Stuck => r matches Err(e) && e == too_deep(),
    }
}

/// A hash result agrees with an outcome.
pub open spec fn entries_agree(s: Read<Seq<(Seq<char>, ByNode)>>, r: Result<Vec<(String, Byml)>>) -> bool {
    match s {
        Read::Value(v) => r matches Ok(x) && entries_of(x@) == v,
        Read::Fault(f) => r matches Err(e) && spec_byml_fault_error(f, e),
        Read::Stuck => r matches Err(e) && e == too_deep(),
    }
}

/// What reading bytes gives: the document, or the fault's error.
pub open spec fn spec_from_binary_result(d: Seq<u8>, r: Result<Byml>) -> bool {
    node_agrees(spec_byml_read(d), r)
}

proof fn lemma_array_node(v: Vec<Byml>)
    ensures
        Byml::Array(v).node() == ByNode::Array(nodes_of(v@)),
{
    let a = Byml::Array(v).node();
    assert(a->Array_0 =~= nodes_of(v@));
}

proof fn lemma_hash_node(v: Vec<(String, Byml)>)
    ensures
        Byml::Hash(v).node() == ByNode::Hash(entries_of(v@)),
{
    let a = Byml::Hash(v).node();
    assert(a->Hash_0 =~= entries_of(v@));
}

/// The error for a read that runs past the end of the data.
fn eof_error(d: &[u8], need: u64) -> (e: Error)
    ensures
        e is InsufficientData,
        e == Error::InsufficientData(d@.len() as usize, if need <= usize::MAX { need as usize } else { usize::MAX }),
{
    let expected: usize = if need <= usize::MAX as u64 {
        need as usize
    } else {
        usize::MAX
    };
    Error::InsufficientData(d.len(), expected)
}

fn fits_at(d: &[u8], off: u64, n: u64) -> (r: bool)
    ensures
        r == fits(d@, off as int, n as int),
{
    let len = d.len() as u64;
    off <= len && n <= len - off
}

fn read_u32_at(d: &[u8], off: u64, e: Endian) -> (r: u32)
    requires
        fits(d@, off as int, 4),
    ensures
        r == spec_read_u32(d@, off as int, e),
{
    assert(off + 4 <= d.len());
    read_u32(d, off as usize, e)
}

fn read_u24_at(d: &[u8], off: u64, e: Endian) -> (r: u32)
    requires
        fits(d@, off as int, 3),
    ensures
        r == spec_read_u24(d@, off as int, e),
        r < 0x100_0000,
{
    let p = off as usize;
    let b0 = d[p] as u32;
    let b1 = d[p + 1] as u32;
    let b2 = d[p + 2] as u32;
    match e {
        Endian::Big => b0 * 65536 + b1 * 256 + b2,
        Endian::Little => b2 * 65536 + b1 * 256 + b0,
    }
}

fn read_u64_at(d: &[u8], off: u64, e: Endian) -> (r: u64)
    requires
        fits(d@, off as int, 8),
    ensures
        r == spec_read_u64(d@, off as int, e),
{
    assert(off + 8 <= d.len());
    let a = read_u32_at(d, off, e) as u64;
    let b = read_u32_at(d, off + 4, e) as u64;
    assert(a * 0x1_0000_0000 + b <= u64::MAX) by (nonlinear_arith)
        requires
            a <= u32::MAX,
            b <= u32::MAX,
    ;
    assert(b * 0x1_0000_0000 + a <= u64::MAX) by (nonlinear_arith)
        requires
            a <= u32::MAX,
            b <= u32::MAX,
    ;
    match e {
        Endian::Big => a * 0x1_0000_0000 + b,
        Endian::Little => b * 0x1_0000_0000 + a,
    }
}

fn read_type(d: &[u8], off: u64) -> (r: Result<NodeType>)
    ensures
        read_agrees(rd_type(d@, off as int), r),
{
    if !fits_at(d, off, 1) {
        return Err(eof_error(d, off));
    }
    match NodeType::from_tag(d[off as usize]) {
        Some(t) => Ok(t),
        None => Err(Error::InvalidData("Invalid BYML node type")),
    }
}

fn string_table(d: &[u8], e: Endian, offset: u32) -> (r: Result<(u32, u32)>)
    ensures
        read_agrees(spec_string_table(d@, e, offset), r),
{
    if offset == 0 {
        return Ok((0, 0));
    }
    let t = match read_type(d, offset as u64) {
        Ok(t) => t,
        Err(err) => return Err(err),
    };
    if !fits_at(d, offset as u64 + 1, 3) {
        return Err(eof_error(d, offset as u64 + 1));
    }
    match t {
        NodeType::StringTable => {},
        _ => return Err(Error::TypeError(t.name(), "string table")),
    }
    Ok((offset, read_u24_at(d, offset as u64 + 1, e)))
}

fn read_bytes(d: &[u8], start: u64, max_len: u32) -> (r: Result<Vec<u8>>)
    ensures
        match spec_read_bytes(d@, start as int, max_len as nat, Seq::empty()) {
            Read::Value(b) => r matches Ok(v) && v@ == b,
            Read::Fault(f) => r matches Err(e) && spec_byml_fault_error(f, e),
            Read::Stuck => false,
        },
{
    let mut v: Vec<u8> = Vec::new();
    let mut pos = start;
    loop
        invariant
            spec_read_bytes(d@, start as int, max_len as nat, Seq::empty()) == spec_read_bytes(
                d@,
                pos as int,
                max_len as nat,
                v@,
            ),
            v@.len() <= max_len,
            pos == start || pos <= d@.len(),
        decreases d@.len() - pos,
    {
        if !fits_at(d, pos, 1) {
            return Err(eof_error(d, pos));
        }
        let c = d[pos as usize];
        if c == 0 || v.len() as u64 >= max_len as u64 {
            return Ok(v);
        }
        v.push(c);
        pos = pos + 1;
    }
}

fn get_string(d: &[u8], e: Endian, table: (u32, u32), index: u32) -> (r: Result<String>)
    ensures
        string_agrees(spec_get_string(d@, e, table, index), r),
{
    if index >= table.1 {
        return Err(Error::InvalidData("Invalid string table entry index"));
    }
    let at: u64 = table.0 as u64 + 4 + 4 * index as u64;
    if at > u32::MAX as u64 {
        return Err(Error::InvalidData("BYML offset out of range"));
    }
    if !fits_at(d, at, 8) {
        return Err(eof_error(d, at));
    }
    let off = read_u32_at(d, at, e);
    let next = read_u32_at(d, at + 4, e);
    if next < off {
        return Err(Error::InvalidData("Invalid string table entry"));
    }
    if table.0 as u64 + off as u64 > u32::MAX as u64 {
        return Err(Error::InvalidData("BYML offset out of range"));
    }
    match read_bytes(d, table.0 as u64 + off as u64, next - off) {
        Ok(b) => Ok(chars_of(b.as_slice())),
        Err(err) => Err(err),
    }
}

fn copy_bytes(d: &[u8], start: u64, n: u64) -> (r: Vec<u8>)
    requires
        fits(d@, start as int, n as int),
    ensures
        r@ == d@.subrange(start as int, start + n),
{
    let mut v: Vec<u8> = Vec::new();
    let mut k: u64 = 0;
    while k < n
        invariant
            fits(d@, start as int, n as int),
            k <= n,
            v@ == d@.subrange(start as int, start + k),
        decreases n - k,
    {
        assert(start + k < d.len());
        v.push(d[(start + k) as usize]);
        k = k + 1;
        assert(v@ =~= d@.subrange(start as int, start + k));
    }
    v
}

fn value_node(d: &[u8], c: &ReadCtx, offset: u32, t: NodeType) -> (r: Result<Byml>)
    ensures
        node_agrees(spec_value_node(d@, *c, offset, t), r),
{
    if !fits_at(d, offset as u64, 4) {
        return Err(eof_error(d, offset as u64));
    }
    let raw = read_u32_at(d, offset as u64, c.e);
    match t {
        NodeType::String => match get_string(d, c.e, c.strings, raw) {
            Ok(s) => Ok(Byml::String(s)),
            Err(err) => Err(err),
        },
        NodeType::Binary => {
            if !fits_at(d, raw as u64, 4) {
                return Err(eof_error(d, raw as u64));
            }
            let size = read_u32_at(d, raw as u64, c.e);
            if !fits_at(d, raw as u64 + 4, size as u64) {
                return Err(eof_error(d, raw as u64 + 4 + size as u64));
            }
            Ok(Byml::BinaryData(copy_bytes(d, raw as u64 + 4, size as u64)))
        },
        NodeType::Bool => Ok(Byml::Bool(raw != 0)),
        NodeType::I32 => Ok(Byml::I32(raw as i32)),
        NodeType::U32 => Ok(Byml::U32(raw)),
        NodeType::Float => Ok(Byml::Float(raw)),
        NodeType::I64 => {
            if !fits_at(d, raw as u64, 8) {
                return Err(eof_error(d, raw as u64 + 8));
            }
            Ok(Byml::I64(read_u64_at(d, raw as u64, c.e) as i64))
        },
        NodeType::U64 => {
            if !fits_at(d, raw as u64, 8) {
                return Err(eof_error(d, raw as u64 + 8));
            }
            Ok(Byml::U64(read_u64_at(d, raw as u64, c.e)))
        },
        NodeType::Double => {
            if !fits_at(d, raw as u64, 8) {
                return Err(eof_error(d, raw as u64 + 8));
            }
            Ok(Byml::Double(read_u64_at(d, raw as u64, c.e)))
        },
        NodeType::Null => Ok(Byml::Null),
        _ => Err(Error::InvalidData("Invalid value node type")),
    }
}

fn child(d: &[u8], c: &ReadCtx, offset: u32, t: NodeType, fuel: usize) -> (r: Result<Byml>)
    ensures
        node_agrees(spec_child(d@, *c, offset, t, fuel as nat), r),
    decreases fuel, 3nat, 0nat,
{
    if is_container_type(t) {
        if !fits_at(d, offset as u64, 4) {
            return Err(eof_error(d, offset as u64));
        }
        let at = read_u32_at(d, offset as u64, c.e);
        container(d, c, at, fuel)
    } else {
        value_node(d, c, offset, t)
    }
}

fn container(d: &[u8], c: &ReadCtx, offset: u32, fuel: usize) -> (r: Result<Byml>)
    ensures
        node_agrees(spec_container(d@, *c, offset, fuel as nat), r),
    decreases fuel, 2nat, 0nat,
{
    let t = match read_type(d, offset as u64) {
        Ok(t) => t,
        Err(err) => return Err(err),
    };
    if !fits_at(d, offset as u64 + 1, 3) {
        return Err(eof_error(d, offset as u64 + 1));
    }
    let size = read_u24_at(d, offset as u64 + 1, c.e);
    match t {
        NodeType::Array => {
            if offset as u64 + 4 + size as u64 + ((4 - size % 4) % 4) as u64 > u32::MAX as u64 {
                return Err(Error::InvalidData("BYML offset out of range"));
            }
            match array_items(d, c, offset, size, fuel) {
            Ok(items) => {
                proof {
                    lemma_array_node(items);
                }
                Ok(Byml::Array(items))
            },
            Err(err) => Err(err),
            }
        },
        NodeType::Hash => match hash_entries(d, c, offset, size, fuel) {
            Ok(entries) => {
                proof {
                    lemma_hash_node(entries);
                }
                Ok(Byml::Hash(entries))
            },
            Err(err) => Err(err),
        },
        _ => Err(Error::InvalidData("Invalid container node type")),
    }
}

fn array_items(d: &[u8], c: &ReadCtx, offset: u32, size: u32, fuel: usize) -> (r: Result<
    Vec<Byml>,
>)
    requires
        values_offset(offset, size) <= u32::MAX,
    ensures
        items_agree(spec_array_from(d@, *c, offset, size, 0, Seq::empty(), fuel as nat), r),
    decreases fuel, 1nat, 0nat,
{
    let vo: u64 = offset as u64 + 4 + size as u64 + ((4 - size % 4) % 4) as u64;
    let mut items: Vec<Byml> = Vec::new();
    let mut i: u32 = 0;
    proof {
        assert(nodes_of(items@) =~= Seq::<ByNode>::empty());
    }
    while i < size
        invariant
            i <= size,
            spec_array_from(d@, *c, offset, size, 0, Seq::empty(), fuel as nat) == spec_array_from(
                d@,
                *c,
                offset,
                size,
                i,
                nodes_of(items@),
                fuel as nat,
            ),
            vo == values_offset(offset, size),
            vo <= u32::MAX,
        decreases size - i,
    {
        if fuel == 0 {
            return Err(Error::InvalidData("BYML containers nest too deeply"));
        }
        if vo + 4 * i as u64 > u32::MAX as u64 {
            return Err(Error::InvalidData("BYML offset out of range"));
        }
        let t = match read_type(d, offset as u64 + 4 + i as u64) {
            Ok(t) => t,
            Err(err) => return Err(err),
        };
        let node = match child(d, c, (vo + 4 * i as u64) as u32, t, fuel - 1) {
            Ok(n) => n,
            Err(err) => return Err(err),
        };
        proof {
            assert(nodes_of(items@.push(node)) =~= nodes_of(items@).push(node.node()));
        }
        items.push(node);
        i = i + 1;
    }
    Ok(items)
}

fn insert_entry(entries: &mut Vec<(String, Byml)>, key: String, node: Byml)
    requires
        keys_distinct(entries_of(old(entries)@)),
    ensures
        entries_of(final(entries)@) == spec_hash_insert(entries_of(old(entries)@), key@, node.node()),
        keys_distinct(entries_of(final(entries)@)),
{
    let ghost old_e = entries_of(entries@);
    let mut j: usize = 0;
    while j < entries.len()
        invariant
            j <= entries@.len(),
            entries_of(entries@) == old_e,
            old_e == entries_of(old(entries)@),
            keys_distinct(old_e),
            forall|k: int| 0 <= k < j ==> old_e[k].0 != key@,
        decreases entries@.len() - j,
    {
        if entries[j].0 == key {
            let ghost kv = key@;
            let ghost nv = node.node();
            entries.set(j, (key, node));
            proof {
                assert(old_e[j as int].0 == kv);
                assert(0 <= j < old_e.len() && old_e[j as int].0 == kv);
                let jj = choose|jj: int| 0 <= jj < old_e.len() && old_e[jj].0 == kv;
                assert(0 <= jj < old_e.len() && old_e[jj].0 == kv);
                if jj < j {
                    assert(old_e[jj].0 != old_e[j as int].0);
                } else if jj > j {
                    assert(old_e[j as int].0 != old_e[jj].0);
                }
                assert(jj == j);
                assert(entries_of(entries@) =~= old_e.update(j as int, (kv, nv)));
                assert(spec_hash_insert(old_e, kv, nv) == old_e.update(j as int, (kv, nv)));
            }
            return;
        }
        j = j + 1;
    }
    let ghost kv = key@;
    let ghost nv = node.node();
    entries.push((key, node));
    proof {
        assert(entries_of(entries@) =~= old_e.push((kv, nv)));
    }
}

fn hash_entries(d: &[u8], c: &ReadCtx, offset: u32, size: u32, fuel: usize) -> (r: Result<
    Vec<(String, Byml)>,
>)
    ensures
        entries_agree(spec_hash_from(d@, *c, offset, size, 0, Seq::empty(), fuel as nat), r),
    decreases fuel, 1nat, 0nat,
{
    let mut entries: Vec<(String, Byml)> = Vec::new();
    let mut i: u32 = 0;
    proof {
        assert(entries_of(entries@) =~= Seq::<(Seq<char>, ByNode)>::empty());
    }
    while i < size
        invariant
            i <= size,
            spec_hash_from(d@, *c, offset, size, 0, Seq::empty(), fuel as nat) == spec_hash_from(
                d@,
                *c,
                offset,
                size,
                i,
                entries_of(entries@),
                fuel as nat,
            ),
            keys_distinct(entries_of(entries@)),
        decreases size - i,
    {
        if fuel == 0 {
            return Err(Error::InvalidData("BYML containers nest too deeply"));
        }
        let at: u64 = offset as u64 + 4 + 8 * i as u64;
        if at + 4 > u32::MAX as u64 {
            return Err(Error::InvalidData("BYML offset out of range"));
        }
        if !fits_at(d, at, 3) {
            return Err(eof_error(d, at));
        }
        let name_idx = read_u24_at(d, at, c.e);
        let t = match read_type(d, at + 3) {
            Ok(t) => t,
            Err(err) => return Err(err),
        };
        let key = match get_string(d, c.e, c.keys, name_idx) {
            Ok(k) => k,
            Err(err) => return Err(err),
        };
        let node = match child(d, c, (at + 4) as u32, t, fuel - 1) {
            Ok(n) => n,
            Err(err) => return Err(err),
        };
        insert_entry(&mut entries, key, node);
        i = i + 1;
    }
    Ok(entries)
}

fn parse_document(d: &[u8], fuel: usize) -> (r: Result<Byml>)
    ensures
        node_agrees(spec_document(d@, fuel as nat), r),
{
    if d.len() < 0x10 {
        return Err(Error::InvalidData("Insufficient data for header"));
    }
    let he = if d[0] == 0x59 && d[1] == 0x42 {
        Endian::Little
    } else {
        Endian::Big
    };
    let version = read_u16(d, 2, he);
    if !is_valid_version(version) {
        return Err(Error::InvalidData("Unsupported BYML version (2 or 3 only)"));
    }
    let e = if d[0] == 0x42 && d[1] == 0x59 {
        Endian::Big
    } else {
        Endian::Little
    };
    let key_off = read_u32(d, 4, he);
    let str_off = read_u32(d, 8, he);
    let root = read_u32(d, 12, he);
    let strings = match string_table(d, e, str_off) {
        Ok(t) => t,
        Err(err) => return Err(err),
    };
    let keys = match string_table(d, e, key_off) {
        Ok(t) => t,
        Err(err) => return Err(err),
    };
    if root == 0 {
        return Ok(Byml::Null);
    }
    let c = ReadCtx { e, strings, keys };
    container(d, &c, root, fuel)
}

/// Reads a document from uncompressed bytes, with one unit of fuel for
/// each byte.
pub(crate) fn read_document(d: &[u8]) -> (r: Result<Byml>)
    ensures
        spec_from_binary_result(d@, r),
{
    parse_document(d, d.len())
}


/// The BYML node type table, as the format fixes it: each tag byte names
/// one node type and each node type has one tag; no other byte is a tag.
pub proof fn byml_tag_table(b: u8)
    ensures
        spec_tag_type(0xA0) == Some(NodeType::String),
        spec_tag_type(0xA1) == Some(NodeType::Binary),
        spec_tag_type(0xC0) == Some(NodeType::Array),
        spec_tag_type(0xC1) == Some(NodeType::Hash),
        spec_tag_type(0xC2) == Some(NodeType::StringTable),
        spec_tag_type(0xD0) == Some(NodeType::Bool),
        spec_tag_type(0xD1) == Some(NodeType::I32),
        spec_tag_type(0xD2) == Some(NodeType::Float),
        spec_tag_type(0xD3) == Some(NodeType::U32),
        spec_tag_type(0xD4) == Some(NodeType::I64),
        spec_tag_type(0xD5) == Some(NodeType::U64),
        spec_tag_type(0xD6) == Some(NodeType::Double),
        spec_tag_type(0xFF) == Some(NodeType::Null),
        spec_tag_type(b) is Some <==> (b == 0xA0 || b == 0xA1 || b == 0xC0 || b == 0xC1 || b == 0xC2
            || (0xD0 <= b && b <= 0xD6) || b == 0xFF),
        spec_node_tag(NodeType::String) == 0xA0,
        spec_node_tag(NodeType::Binary) == 0xA1,
        spec_node_tag(NodeType::Array) == 0xC0,
        spec_node_tag(NodeType::Hash) == 0xC1,
        spec_node_tag(NodeType::StringTable) == 0xC2,
        spec_node_tag(NodeType::Bool) == 0xD0,
        spec_node_tag(NodeType::I32) == 0xD1,
        spec_node_tag(NodeType::Float) == 0xD2,
        spec_node_tag(NodeType::U32) == 0xD3,
        spec_node_tag(NodeType::I64) == 0xD4,
        spec_node_tag(NodeType::U64) == 0xD5,
        spec_node_tag(NodeType::Double) == 0xD6,
        spec_node_tag(NodeType::Null) == 0xFF,
{
}

/// What the value tags read as: a slot tagged 0xD2 holds a float's bits in
/// its own word, 0xD3 an unsigned and 0xD1 a signed integer there, 0xD0 a
/// boolean; a slot tagged 0xD4, 0xD5 or 0xD6 holds the offset of the 64-bit
/// signed integer, unsigned integer or double that it stands for.
pub proof fn byml_value_tags(d: Seq<u8>, c: ReadCtx, offset: u32)
    requires
        fits(d, offset as int, 4),
    ensures
        ({
            let w = spec_read_u32(d, offset as int, c.e);
            &&& spec_value_node(d, c, offset, spec_tag_type(0xD2)->Some_0) == Read::Value(
                ByNode::Float(w),
            )
            &&& spec_value_node(d, c, offset, spec_tag_type(0xD3)->Some_0) == Read::Value(
                ByNode::U32(w),
            )
            &&& spec_value_node(d, c, offset, spec_tag_type(0xD1)->Some_0) == Read::Value(
                ByNode::I32(w as i32),
            )
            &&& spec_value_node(d, c, offset, spec_tag_type(0xD0)->Some_0) == Read::Value(
                ByNode::Bool(w != 0),
            )
            &&& fits(d, w as int, 8) ==> spec_value_node(d, c, offset, spec_tag_type(0xD4)->Some_0)
                == Read::Value(ByNode::I64(spec_read_u64(d, w as int, c.e) as i64))
            &&& fits(d, w as int, 8) ==> spec_value_node(d, c, offset, spec_tag_type(0xD5)->Some_0)
                == Read::Value(ByNode::U64(spec_read_u64(d, w as int, c.e)))
            &&& fits(d, w as int, 8) ==> spec_value_node(d, c, offset, spec_tag_type(0xD6)->Some_0)
                == Read::Value(ByNode::Double(spec_read_u64(d, w as int, c.e)))
        }),
{
}
} // verus!
