//! Reading parts of a parameter archive in place: lists, objects and
//! parameters are found by name or index and read when asked for.
use vstd::prelude::*;
use vstd::string::StringSliceAdditionalSpecFns;
use crate::{Error, Result};
use crate::util::{find_null, spec_find_null, str_from_utf8};
use super::Name;
use super::param::{param_view, PVal, Parameter};
use super::access::param_type_name;
use super::binary::{
    param_read_total, aamp_fault_error, avail, avail_at, eof, half, half_at, read_param, spec_param, word, word_at,
    AampFault, Outcome,
};

verus! {

/// The header checks of an archive: the first that fails, if any.
pub open spec fn header_fault(d: Seq<u8>) -> Option<AampFault> {
    if d.len() < 0x30 {
        Some(AampFault::ShortHeader)
    } else if !(d[0] == 0x41 && d[1] == 0x41 && d[2] == 0x4D && d[3] == 0x50) {
        Some(AampFault::BadMagic)
    } else if word(d, 4) != 2 {
        Some(AampFault::BadVersion)
    } else if word(d, 8) & 1 != 1 {
        Some(AampFault::NotLittleEndian)
    } else if word(d, 8) & 2 != 2 {
        Some(AampFault::NotUtf8)
    } else {
        None
    }
}

/// Where the root list of an archive starts.
pub open spec fn root_offset(d: Seq<u8>) -> int {
    word(d, 0x14) + 0x30
}

/// A read view of a parameter archive.
pub struct ParameterIOReader<'a> {
    data: &'a [u8],
    root_offset: u32,
}

impl<'a> ParameterIOReader<'a> {
    /// The bytes of the archive.
    pub closed spec fn bytes(&self) -> Seq<u8> {
        self.data@
    }

    #[verifier::type_invariant]
    spec fn wf(self) -> bool {
        &&& header_fault(self.data@) is None
        &&& self.root_offset == root_offset(self.data@)
        &&& avail(self.data@, self.root_offset as int, 12)
    }

    /// Checks the header of an archive and that its root list can be read.
    pub fn new(data: &'a [u8]) -> (r: Result<Self>)
        ensures
            r matches Ok(p) ==> p.bytes() == data@ && header_fault(data@) is None && root_offset(
                data@,
            ) <= u32::MAX && avail(data@, root_offset(data@), 12),
            r matches Err(e) ==> match header_fault(data@) {
                Some(f) => aamp_fault_error(f, e),
                None => if root_offset(data@) > u32::MAX {
                    e == Error::InvalidData("Parameter offset out of range")
                } else {
                    !avail(data@, root_offset(data@), 12) && e is InsufficientData
                },
            },
            header_fault(data@) is None && root_offset(data@) <= u32::MAX && avail(
                data@,
                root_offset(data@),
                12,
            ) ==> r is Ok,
    {
        if data.len() < 0x30 {
            return Err(Error::InvalidData("Incomplete parameter archive"));
        }
        if !(data[0] == 0x41 && data[1] == 0x41 && data[2] == 0x4D && data[3] == 0x50) {
            return Err(Error::BadMagic(crate::util::lossy_string(vstd::slice::slice_subrange(data, 0, 4)), "AAMP"));
        }
        if word_at(data, 4) != 2 {
            return Err(Error::InvalidData("Only version 2 parameter archives are supported"));
        }
        let flags = word_at(data, 8);
        if flags & 1 != 1 {
            return Err(Error::InvalidData("Only little endian parameter archives are supported"));
        }
        if flags & 2 != 2 {
            return Err(Error::InvalidData("Only UTF-8 parameter archives are supported"));
        }
        let root = word_at(data, 0x14) as u64 + 0x30;
        if root > u32::MAX as u64 {
            return Err(Error::InvalidData("Parameter offset out of range"));
        }
        if !avail_at(data, root, 12) {
            return Err(eof(data, root + 12));
        }
        Ok(ParameterIOReader { data, root_offset: root as u32 })
    }

    /// The root parameter list.
    pub fn root(&self) -> (r: ParameterListReader<'a>)
        ensures
            r.bytes() == self.bytes(),
            r.offset() == root_offset(self.bytes()),
    {
        proof {
            use_type_invariant(self);
        }
        ParameterListReader::at(self.data, self.root_offset)
    }

    /// The data version (not the AAMP format version). Typically 0.
    pub fn version(&self) -> (r: u32)
        ensures
            r == word(self.bytes(), 0x10),
    {
        proof {
            use_type_invariant(self);
        }
        word_at(self.data, 0x10)
    }

    /// The data type identifier. Typically `xml`.
    pub fn doc_type(&self) -> (r: Result<&'a str>)
        ensures
            match spec_find_null(self.bytes(), 0x30) {
                None => r matches Err(e) && e == Error::InvalidData(
                    "Null terminator missing for data type",
                ),
                Some(end) => if vstd::utf8::valid_utf8(self.bytes().subrange(0x30, end)) {
                    r matches Ok(s) && s.spec_bytes() == self.bytes().subrange(0x30, end)
                } else {
                    r matches Err(e) && e is InvalidUtf8
                },
            },
    {
        proof {
            use_type_invariant(self);
        }
        match find_null(self.data, 0x30) {
            None => Err(Error::InvalidData("Null terminator missing for data type")),
            Some(end) => match str_from_utf8(vstd::slice::slice_subrange(self.data, 0x30, end)) {
                Ok(s) => Ok(s),
                Err(e) => Err(Error::InvalidUtf8(e)),
            },
        }
    }
}

/// Where the entry with the name stands among `count` entries of `size`
/// bytes from `base` on, from entry `i` on: `None` where there is none.
pub open spec fn find_named(d: Seq<u8>, base: int, count: int, size: int, name: u32, i: int) -> Outcome<
    Option<int>,
>
    decreases count - i,
{
    if i >= count {
        Outcome::Value(None)
    } else if base + size * i > u32::MAX {
        Outcome::Fault(AampFault::BadOffset)
    } else if !avail(d, base + size * i, size) {
        Outcome::Fault(AampFault::Eof)
    } else if word(d, base + size * i) == name {
        Outcome::Value(Some(base + size * i))
    } else {
        find_named(d, base, count, size, name, i + 1)
    }
}

/// Looking for an entry by name always has an outcome: where it stands,
/// that it is not there, or a fault.
pub proof fn find_named_total(d: Seq<u8>, base: int, count: int, size: int, name: u32, i: int)
    ensures
        !(find_named(d, base, count, size, name, i) is Stuck),
    decreases count - i,
{
    if i < count && base + size * i <= u32::MAX && avail(d, base + size * i, size) && word(
        d,
        base + size * i,
    ) != name {
        find_named_total(d, base, count, size, name, i + 1);
    }
}

/// Finds an entry by name.
fn find_entry(d: &[u8], base: u64, count: u64, size: u64, name: u32) -> (r: Result<Option<u32>>)
    requires
        base <= 0x1_0010_0000,
        count <= 0xFFFF,
        size == 8 || size == 12,
    ensures
        match find_named(d@, base as int, count as int, size as int, name, 0) {
            Outcome::Value(None) => r matches Ok(None),
            Outcome::Value(Some(o)) => r matches Ok(Some(x)) && x == o,
            Outcome::Fault(f) => r matches Err(e) && aamp_fault_error(f, e),
            Outcome::Stuck => true,
        },
        r matches Ok(Some(x)) ==> avail(d@, x as int, size as int),
{
    let mut i: u64 = 0;
    while i < count
        invariant
            base <= 0x1_0010_0000,
            count <= 0xFFFF,
            size == 8 || size == 12,
            find_named(d@, base as int, count as int, size as int, name, 0) == find_named(
                d@,
                base as int,
                count as int,
                size as int,
                name,
                i as int,
            ),
        decreases count - i,
    {
        let off = base + size * i;
        if off > u32::MAX as u64 {
            return Err(Error::InvalidData("Parameter offset out of range"));
        }
        if !avail_at(d, off, size) {
            return Err(eof(d, off + size));
        }
        if word_at(d, off) == name {
            return Ok(Some(off as u32));
        }
        i = i + 1;
    }
    Ok(None)
}

/// A read view of a parameter list.
pub struct ParameterListReader<'a> {
    data: &'a [u8],
    offset: u32,
}

impl<'a> ParameterListReader<'a> {
    /// The bytes of the archive.
    pub closed spec fn bytes(&self) -> Seq<u8> {
        self.data@
    }

    /// Where the list's header starts.
    pub closed spec fn offset(&self) -> int {
        self.offset as int
    }

    #[verifier::type_invariant]
    spec fn wf(self) -> bool {
        avail(self.data@, self.offset as int, 12)
    }

    /// Where the list's child lists start.
    pub open spec fn lists_base(&self) -> int {
        half(self.bytes(), self.offset() + 4) * 4 + self.offset()
    }

    /// Where the list's objects start.
    pub open spec fn objs_base(&self) -> int {
        half(self.bytes(), self.offset() + 8) * 4 + self.offset()
    }

    fn at(data: &'a [u8], offset: u32) -> (r: Self)
        requires
            avail(data@, offset as int, 12),
        ensures
            r.bytes() == data@,
            r.offset() == offset,
    {
        ParameterListReader { data, offset }
    }

    /// The hashed name of the list.
    pub fn name(&self) -> (r: Name)
        ensures
            r.spec_hash() == word(self.bytes(), self.offset()),
    {
        proof {
            use_type_invariant(self);
        }
        Name::from_hash(word_at(self.data, self.offset as u64))
    }

    /// The number of child lists.
    pub fn lists_len(&self) -> (r: usize)
        ensures
            r == half(self.bytes(), self.offset() + 6),
    {
        proof {
            use_type_invariant(self);
        }
        half_at(self.data, self.offset as u64 + 6) as usize
    }

    /// The number of parameter objects.
    pub fn objs_len(&self) -> (r: usize)
        ensures
            r == half(self.bytes(), self.offset() + 10),
    {
        proof {
            use_type_invariant(self);
        }
        half_at(self.data, self.offset as u64 + 10) as usize
    }

    /// Whether the list has no child lists.
    pub fn lists_empty(&self) -> (r: bool)
        ensures
            r == (half(self.bytes(), self.offset() + 6) == 0),
    {
        self.lists_len() == 0
    }

    /// Whether the list has no parameter objects.
    pub fn objs_empty(&self) -> (r: bool)
        ensures
            r == (half(self.bytes(), self.offset() + 10) == 0),
    {
        self.objs_len() == 0
    }

    /// The child list with the name: `None` where there is none, or the
    /// error of reading its header.
    pub fn try_list(&self, name: Name) -> (r: Result<Option<ParameterListReader<'a>>>)
        ensures
            match find_named(
                self.bytes(),
                self.lists_base(),
                half(self.bytes(), self.offset() + 6) as int,
                12,
                name.spec_hash(),
                0,
            ) {
                Outcome::Value(None) => r matches Ok(None),
                Outcome::Value(Some(o)) => r matches Ok(Some(l)) && l.bytes() == self.bytes()
                    && l.offset() == o,
                Outcome::Fault(f) => r matches Err(e) && aamp_fault_error(f, e),
                Outcome::Stuck => true,
            },
    {
        proof {
            use_type_invariant(self);
        }
        let base = half_at(self.data, self.offset as u64 + 4) as u64 * 4 + self.offset as u64;
        let count = half_at(self.data, self.offset as u64 + 6) as u64;
        match find_entry(self.data, base, count, 12, name.hash()) {
            Ok(Some(off)) => {
                assert(avail(self.data@, off as int, 12));
                Ok(Some(ParameterListReader::at(self.data, off)))
            },
            Ok(None) => Ok(None),
            Err(e) => Err(e),
        }
    }

    /// The child list with the name, where it exists and its header can be
    /// read.
    pub fn list(&self, name: Name) -> (r: Option<ParameterListReader<'a>>)
        ensures
            match find_named(
                self.bytes(),
                self.lists_base(),
                half(self.bytes(), self.offset() + 6) as int,
                12,
                name.spec_hash(),
                0,
            ) {
                Outcome::Value(Some(o)) => r matches Some(l) && l.bytes() == self.bytes()
                    && l.offset() == o,
                _ => r is None,
            },
    {
        proof {
            find_named_total(
                self.bytes(),
                self.lists_base(),
                half(self.bytes(), self.offset() + 6) as int,
                12,
                name.spec_hash(),
                0,
            );
        }
        match self.try_list(name) {
            Ok(x) => x,
            Err(_) => None,
        }
    }

    /// The child list at the index: `None` past the end, or the error of
    /// reading its header.
    pub fn try_list_at(&self, index: usize) -> (r: Result<Option<ParameterListReader<'a>>>)
        ensures
            index >= half(self.bytes(), self.offset() + 6) ==> r matches Ok(None),
            index < half(self.bytes(), self.offset() + 6) ==> if self.lists_base() + 12 * index
                > u32::MAX {
                r matches Err(e) && e == Error::InvalidData("Parameter offset out of range")
            } else if avail(
                self.bytes(),
                self.lists_base() + 12 * index,
                12,
            ) {
                r matches Ok(Some(l)) && l.bytes() == self.bytes() && l.offset()
                    == self.lists_base() + 12 * index
            } else {
                r matches Err(e) && e is InsufficientData
            },
    {
        proof {
            use_type_invariant(self);
        }
        let count = half_at(self.data, self.offset as u64 + 6) as usize;
        if index >= count {
            return Ok(None);
        }
        let base = half_at(self.data, self.offset as u64 + 4) as u64 * 4 + self.offset as u64;
        let off = base + 12 * index as u64;
        if off > u32::MAX as u64 {
            return Err(Error::InvalidData("Parameter offset out of range"));
        }
        if !avail_at(self.data, off, 12) {
            return Err(eof(self.data, off + 12));
        }
        Ok(Some(ParameterListReader::at(self.data, off as u32)))
    }

    /// The child list at the index, where it exists and its header can be
    /// read.
    pub fn list_at(&self, index: usize) -> (r: Option<ParameterListReader<'a>>)
        ensures
            r matches Some(l) ==> l.bytes() == self.bytes() && l.offset() == self.lists_base() + 12
                * index,
            r is Some <==> index < half(self.bytes(), self.offset() + 6) && self.lists_base() + 12
                * index <= u32::MAX && avail(
                self.bytes(),
                self.lists_base() + 12 * index,
                12,
            ),
    {
        match self.try_list_at(index) {
            Ok(x) => x,
            Err(_) => None,
        }
    }

    /// The parameter object with the name: `None` where there is none, or
    /// the error of reading its header.
    pub fn try_object(&self, name: Name) -> (r: Result<Option<ParameterObjectReader<'a>>>)
        ensures
            match find_named(
                self.bytes(),
                self.objs_base(),
                half(self.bytes(), self.offset() + 10) as int,
                8,
                name.spec_hash(),
                0,
            ) {
                Outcome::Value(None) => r matches Ok(None),
                Outcome::Value(Some(o)) => r matches Ok(Some(x)) && x.bytes() == self.bytes()
                    && x.offset() == o,
                Outcome::Fault(f) => r matches Err(e) && aamp_fault_error(f, e),
                Outcome::Stuck => true,
            },
    {
        proof {
            use_type_invariant(self);
        }
        let base = half_at(self.data, self.offset as u64 + 8) as u64 * 4 + self.offset as u64;
        let count = half_at(self.data, self.offset as u64 + 10) as u64;
        match find_entry(self.data, base, count, 8, name.hash()) {
            Ok(Some(off)) => {
                assert(avail(self.data@, off as int, 8));
                Ok(Some(ParameterObjectReader::at(self.data, off)))
            },
            Ok(None) => Ok(None),
            Err(e) => Err(e),
        }
    }

    /// The parameter object with the name, where it exists and its header
    /// can be read.
    pub fn object(&self, name: Name) -> (r: Option<ParameterObjectReader<'a>>)
        ensures
            match find_named(
                self.bytes(),
                self.objs_base(),
                half(self.bytes(), self.offset() + 10) as int,
                8,
                name.spec_hash(),
                0,
            ) {
                Outcome::Value(Some(o)) => r matches Some(x) && x.bytes() == self.bytes()
                    && x.offset() == o,
                _ => r is None,
            },
    {
        proof {
            find_named_total(
                self.bytes(),
                self.objs_base(),
                half(self.bytes(), self.offset() + 10) as int,
                8,
                name.spec_hash(),
                0,
            );
        }
        match self.try_object(name) {
            Ok(x) => x,
            Err(_) => None,
        }
    }

    /// The parameter object at the index: `None` past the end, or the error
    /// of reading its header.
    pub fn try_object_at(&self, index: usize) -> (r: Result<Option<ParameterObjectReader<'a>>>)
        ensures
            index >= half(self.bytes(), self.offset() + 10) ==> r matches Ok(None),
            index < half(self.bytes(), self.offset() + 10) ==> if self.objs_base() + 8 * index
                > u32::MAX {
                r matches Err(e) && e == Error::InvalidData("Parameter offset out of range")
            } else if avail(
                self.bytes(),
                self.objs_base() + 8 * index,
                8,
            ) {
                r matches Ok(Some(x)) && x.bytes() == self.bytes() && x.offset() == self.objs_base()
                    + 8 * index
            } else {
                r matches Err(e) && e is InsufficientData
            },
    {
        proof {
            use_type_invariant(self);
        }
        let count = half_at(self.data, self.offset as u64 + 10) as usize;
        if index >= count {
            return Ok(None);
        }
        let base = half_at(self.data, self.offset as u64 + 8) as u64 * 4 + self.offset as u64;
        let off = base + 8 * index as u64;
        if off > u32::MAX as u64 {
            return Err(Error::InvalidData("Parameter offset out of range"));
        }
        if !avail_at(self.data, off, 8) {
            return Err(eof(self.data, off + 8));
        }
        Ok(Some(ParameterObjectReader::at(self.data, off as u32)))
    }

    /// The parameter object at the index, where it exists and its header
    /// can be read.
    pub fn object_at(&self, index: usize) -> (r: Option<ParameterObjectReader<'a>>)
        ensures
            r matches Some(x) ==> x.bytes() == self.bytes() && x.offset() == self.objs_base() + 8
                * index,
            r is Some <==> index < half(self.bytes(), self.offset() + 10) && self.objs_base() + 8
                * index <= u32::MAX && avail(
                self.bytes(),
                self.objs_base() + 8 * index,
                8,
            ),
    {
        match self.try_object_at(index) {
            Ok(x) => x,
            Err(_) => None,
        }
    }
}

/// A read view of a parameter object.
pub struct ParameterObjectReader<'a> {
    data: &'a [u8],
    offset: u32,
}

impl<'a> ParameterObjectReader<'a> {
    /// The bytes of the archive.
    pub closed spec fn bytes(&self) -> Seq<u8> {
        self.data@
    }

    /// Where the object's header starts.
    pub closed spec fn offset(&self) -> int {
        self.offset as int
    }

    #[verifier::type_invariant]
    spec fn wf(self) -> bool {
        avail(self.data@, self.offset as int, 8)
    }

    /// Where the object's parameters start.
    pub open spec fn params_base(&self) -> int {
        half(self.bytes(), self.offset() + 4) * 4 + self.offset()
    }

    fn at(data: &'a [u8], offset: u32) -> (r: Self)
        requires
            avail(data@, offset as int, 8),
        ensures
            r.bytes() == data@,
            r.offset() == offset,
    {
        ParameterObjectReader { data, offset }
    }

    /// The hashed name of the object.
    pub fn name(&self) -> (r: Name)
        ensures
            r.spec_hash() == word(self.bytes(), self.offset()),
    {
        proof {
            use_type_invariant(self);
        }
        Name::from_hash(word_at(self.data, self.offset as u64))
    }

    /// The number of parameters.
    pub fn len(&self) -> (r: usize)
        ensures
            r == half(self.bytes(), self.offset() + 6),
    {
        proof {
            use_type_invariant(self);
        }
        half_at(self.data, self.offset as u64 + 6) as usize
    }

    /// Whether the object has no parameters.
    pub fn is_empty(&self) -> (r: bool)
        ensures
            r == (half(self.bytes(), self.offset() + 6) == 0),
    {
        self.len() == 0
    }

    /// The parameter at the index: `None` past the end, or the error of
    /// reading it.
    pub fn try_get_at(&self, index: usize) -> (r: Result<Option<Parameter>>)
        ensures
            index >= half(self.bytes(), self.offset() + 6) ==> r matches Ok(None),
            index < half(self.bytes(), self.offset() + 6) && self.params_base() + 8 * index
                > u32::MAX ==> (r matches Err(e) && e == Error::InvalidData(
                "Parameter offset out of range",
            )),
            index < half(self.bytes(), self.offset() + 6) && self.params_base() + 8 * index
                <= u32::MAX ==> match spec_param(
                self.bytes(),
                self.params_base() + 8 * index,
            ) {
                Outcome::Value(v) => r matches Ok(Some(p)) && param_view(p) == v.1,
                Outcome::Fault(f) => r matches Err(e) && aamp_fault_error(f, e),
                Outcome::Stuck => true,
            },
    {
        proof {
            use_type_invariant(self);
        }
        let count = half_at(self.data, self.offset as u64 + 6) as usize;
        if index >= count {
            return Ok(None);
        }
        let base = half_at(self.data, self.offset as u64 + 4) as u64 * 4 + self.offset as u64;
        if base + 8 * index as u64 > u32::MAX as u64 {
            return Err(Error::InvalidData("Parameter offset out of range"));
        }
        match read_param(self.data, base + 8 * index as u64) {
            Ok((_, p)) => Ok(Some(p)),
            Err(e) => Err(e),
        }
    }

    /// The parameter with the name: `None` where there is none, or the
    /// error of reading it.
    pub fn try_get(&self, name: Name) -> (r: Result<Option<Parameter>>)
        ensures
            match find_named(
                self.bytes(),
                self.params_base(),
                half(self.bytes(), self.offset() + 6) as int,
                8,
                name.spec_hash(),
                0,
            ) {
                Outcome::Value(None) => r matches Ok(None),
                Outcome::Value(Some(o)) => match spec_param(self.bytes(), o) {
                    Outcome::Value(v) => r matches Ok(Some(p)) && param_view(p) == v.1,
                    Outcome::Fault(f) => r matches Err(e) && aamp_fault_error(f, e),
                    Outcome::Stuck => true,
                },
                Outcome::Fault(f) => r matches Err(e) && aamp_fault_error(f, e),
                Outcome::Stuck => true,
            },
    {
        proof {
            use_type_invariant(self);
        }
        let base = half_at(self.data, self.offset as u64 + 4) as u64 * 4 + self.offset as u64;
        let count = half_at(self.data, self.offset as u64 + 6) as u64;
        match find_entry(self.data, base, count, 8, name.hash()) {
            Ok(Some(off)) => match read_param(self.data, off as u64) {
                Ok((_, p)) => Ok(Some(p)),
                Err(e) => Err(e),
            },
            Ok(None) => Ok(None),
            Err(e) => Err(e),
        }
    }

    /// The parameter with the name, where it exists and can be read.
    pub fn get(&self, name: Name) -> (r: Option<Parameter>)
        ensures
            match find_named(
                self.bytes(),
                self.params_base(),
                half(self.bytes(), self.offset() + 6) as int,
                8,
                name.spec_hash(),
                0,
            ) {
                Outcome::Value(Some(o)) => match spec_param(self.bytes(), o) {
                    Outcome::Value(v) => r matches Some(p) && param_view(p) == v.1,
                    _ => r is None,
                },
                _ => r is None,
            },
    {
        proof {
            find_named_total(
                self.bytes(),
                self.params_base(),
                half(self.bytes(), self.offset() + 6) as int,
                8,
                name.spec_hash(),
                0,
            );
            assert forall|o: int| !(#[trigger] spec_param(self.bytes(), o) is Stuck) by {
                param_read_total(self.bytes(), o);
            }
        }
        match self.try_get(name) {
            Ok(x) => x,
            Err(_) => None,
        }
    }

    /// The parameter at the index, where it exists and can be read.
    pub fn get_at(&self, index: usize) -> (r: Option<Parameter>)
        ensures
            index >= half(self.bytes(), self.offset() + 6) ==> r is None,
            index < half(self.bytes(), self.offset() + 6) && self.params_base() + 8 * index
                > u32::MAX ==> r is None,
            index < half(self.bytes(), self.offset() + 6) && self.params_base() + 8 * index
                <= u32::MAX ==> match spec_param(
                self.bytes(),
                self.params_base() + 8 * index,
            ) {
                Outcome::Value(v) => r matches Some(p) && param_view(p) == v.1,
                _ => r is None,
            },
    {
        proof {
            param_read_total(self.bytes(), self.params_base() + 8 * index);
        }
        match self.try_get_at(index) {
            Ok(x) => x,
            Err(_) => None,
        }
    }
}


/// Whether `x` is the string that a parameter value holds.
pub open spec fn holds_string(v: (u8, PVal), x: Seq<char>) -> bool {
    match v.1 {
        PVal::Bytes(b) => (v.0 == 7 || v.0 == 8 || v.0 == 15) && vstd::utf8::encode_utf8(x) == b,
        PVal::Chars(c) => v.0 == 20 && x == c,
        _ => false,
    }
}

/// The result of asking for the string of a parameter value: the string, or
/// for a value of another type the error that names its type.
pub open spec fn string_result(v: (u8, PVal), r: Result<String>) -> bool {
    if v.0 == 7 || v.0 == 8 || v.0 == 15 || v.0 == 20 {
        r matches Ok(x) && holds_string(v, x@)
    } else {
        r matches Err(e) && e matches Error::TypeError(found, exp) && found@ == param_type_name(v.0)
            && exp@ == "any string type"@
    }
}

/// The string of a parameter of any string type.
fn any_str(p: Parameter) -> (r: Result<String>)
    ensures
        string_result(param_view(p), r),
{
    match p {
        Parameter::String32(s) => Ok(s.as_str().to_owned()),
        Parameter::String64(s) => Ok(s.as_str().to_owned()),
        Parameter::String256(s) => Ok(s.as_str().to_owned()),
        Parameter::StringRef(s) => Ok(s),
        _ => Err(Error::TypeError(p.param_type_name(), "any string type")),
    }
}

impl<'a> ParameterObjectReader<'a> {
    /// The string of the parameter with the name, which must be of a string
    /// type.
    pub fn try_get_str(&self, name: Name) -> (r: Result<Option<String>>)
        ensures
            match find_named(
                self.bytes(),
                self.params_base(),
                half(self.bytes(), self.offset() + 6) as int,
                8,
                name.spec_hash(),
                0,
            ) {
                Outcome::Value(None) => r matches Ok(None),
                Outcome::Value(Some(o)) => match spec_param(self.bytes(), o) {
                    Outcome::Value(v) => match r {
                        Ok(Some(x)) => string_result(v.1, Ok(x)),
                        Ok(None) => false,
                        Err(e) => string_result(v.1, Err(e)),
                    },
                    Outcome::Fault(f) => r matches Err(e) && aamp_fault_error(f, e),
                    Outcome::Stuck => true,
                },
                Outcome::Fault(f) => r matches Err(e) && aamp_fault_error(f, e),
                Outcome::Stuck => true,
            },
    {
        match self.try_get(name) {
            Ok(Some(p)) => match any_str(p) {
                Ok(x) => Ok(Some(x)),
                Err(e) => Err(e),
            },
            Ok(None) => Ok(None),
            Err(e) => Err(e),
        }
    }

    /// The string of the parameter with the name, where it exists, is of a
    /// string type and can be read.
    pub fn get_str(&self, name: Name) -> (r: Option<String>)
        ensures
            match find_named(
                self.bytes(),
                self.params_base(),
                half(self.bytes(), self.offset() + 6) as int,
                8,
                name.spec_hash(),
                0,
            ) {
                Outcome::Value(Some(o)) => match spec_param(self.bytes(), o) {
                    Outcome::Value(v) => match r {
                        Some(x) => string_result(v.1, Ok(x)),
                        None => !(v.1.0 == 7 || v.1.0 == 8 || v.1.0 == 15 || v.1.0 == 20),
                    },
                    _ => r is None,
                },
                _ => r is None,
            },
    {
        proof {
            find_named_total(
                self.bytes(),
                self.params_base(),
                half(self.bytes(), self.offset() + 6) as int,
                8,
                name.spec_hash(),
                0,
            );
            assert forall|o: int| !(#[trigger] spec_param(self.bytes(), o) is Stuck) by {
                param_read_total(self.bytes(), o);
            }
        }
        match self.try_get_str(name) {
            Ok(x) => x,
            Err(_) => None,
        }
    }

    /// The string of the parameter at the index, which must be of a string
    /// type.
    pub fn try_get_str_at(&self, index: usize) -> (r: Result<Option<String>>)
        ensures
            index >= half(self.bytes(), self.offset() + 6) ==> r matches Ok(None),
            index < half(self.bytes(), self.offset() + 6) && self.params_base() + 8 * index
                > u32::MAX ==> (r matches Err(e) && e == Error::InvalidData(
                "Parameter offset out of range",
            )),
            index < half(self.bytes(), self.offset() + 6) && self.params_base() + 8 * index
                <= u32::MAX ==> match spec_param(
                self.bytes(),
                self.params_base() + 8 * index,
            ) {
                Outcome::Value(v) => match r {
                    Ok(Some(x)) => string_result(v.1, Ok(x)),
                    Ok(None) => false,
                    Err(e) => string_result(v.1, Err(e)),
                },
                Outcome::Fault(f) => r matches Err(e) && aamp_fault_error(f, e),
                Outcome::Stuck => true,
            },
    {
        match self.try_get_at(index) {
            Ok(Some(p)) => match any_str(p) {
                Ok(x) => Ok(Some(x)),
                Err(e) => Err(e),
            },
            Ok(None) => Ok(None),
            Err(e) => Err(e),
        }
    }

    /// The string of the parameter at the index, where it exists, is of a
    /// string type and can be read.
    pub fn get_str_at(&self, index: usize) -> (r: Option<String>)
        ensures
            index >= half(self.bytes(), self.offset() + 6) ==> r is None,
            index < half(self.bytes(), self.offset() + 6) && self.params_base() + 8 * index
                > u32::MAX ==> r is None,
            index < half(self.bytes(), self.offset() + 6) && self.params_base() + 8 * index
                <= u32::MAX ==> match spec_param(
                self.bytes(),
                self.params_base() + 8 * index,
            ) {
                Outcome::Value(v) => match r {
                    Some(x) => string_result(v.1, Ok(x)),
                    None => !(v.1.0 == 7 || v.1.0 == 8 || v.1.0 == 15 || v.1.0 == 20),
                },
                _ => r is None,
            },
    {
        proof {
            param_read_total(self.bytes(), self.params_base() + 8 * index);
        }
        match self.try_get_str_at(index) {
            Ok(x) => x,
            Err(_) => None,
        }
    }
}

} // verus!
