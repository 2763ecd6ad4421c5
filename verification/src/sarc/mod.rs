//! Reading and writing SARC archives.
//!
//! A SARC archive is a 0x14-byte header (`"SARC"`, header size, byte order
//! mark, file size, data offset, version 0x100), an SFAT table (0x0C-byte
//! header, then one 0x10-byte entry per file: name hash, name reference, data
//! begin, data end), an SFNT name table (0x08-byte header, then NUL-terminated
//! names padded to 4 bytes) and the file data. Entries are ordered by the
//! hash of the file name, which lets a reader find a file by binary search.
use vstd::prelude::*;
use vstd::string::StringSliceAdditionalSpecFns;

mod parse;
mod roundtrip;
mod write;


pub use parse::{FileIterator, Sarc, SarcFault};
pub use roundtrip::{
    default_alignment_table, sarc_layout_reads_back, spec_reads_back, valid_alignment_is_pow2,
    writer_reads_back, written_data_is_aligned, written_data_meets_default_requirements,
};
pub use write::{FileName, SarcWriter};


verus! {

/// The file name hash of SARC archives: `h = h * multiplier + byte` over the
/// name's bytes, modulo 2^32.
pub open spec fn spec_sarc_hash(multiplier: u32, bytes: Seq<u8>) -> u32
    decreases bytes.len(),
{
    if bytes.len() == 0 {
        0
    } else {
        ((spec_sarc_hash(multiplier, bytes.drop_last()) * multiplier + bytes.last())
            % 0x1_0000_0000) as u32
    }
}

/// The SARC name hash works on the name's raw bytes: the empty name hashes
/// to 0, a one-byte name to that byte, and appending a byte `x` multiplies
/// the hash by the multiplier and adds `x` itself (no case folding or other
/// change of the byte), modulo 2^32.
pub proof fn sarc_hash_law(multiplier: u32, b: Seq<u8>, x: u8)
    ensures
        spec_sarc_hash(multiplier, Seq::empty()) == 0,
        spec_sarc_hash(multiplier, seq![x]) == x as u32,
        spec_sarc_hash(multiplier, b.push(x)) == ((spec_sarc_hash(multiplier, b) as int
            * multiplier as int + x as int) % 0x1_0000_0000) as u32,
{
    assert(b.push(x).drop_last() =~= b);
    assert(seq![x].drop_last() =~= Seq::<u8>::empty());
    assert(seq![x].last() == x);
}

/// Hashes a file name as SARC archives do.
pub fn hash_name(multiplier: u32, name: &str) -> (r: u32)
    ensures
        r == spec_sarc_hash(multiplier, name.spec_bytes()),
{
    let bytes = name.as_bytes();
    let mut hash: u32 = 0;
    let mut i: usize = 0;
    while i < bytes.len()
        invariant
            i <= bytes@.len(),
            bytes@ == name.spec_bytes(),
            hash == spec_sarc_hash(multiplier, bytes@.take(i as int)),
        decreases bytes@.len() - i,
    {
        assert(bytes@.take(i + 1).drop_last() =~= bytes@.take(i as int));
        assert((hash as u64) * (multiplier as u64) <= 0xFFFF_FFFFu64 * 0xFFFF_FFFFu64) by (nonlinear_arith)
            requires
                hash <= 0xFFFF_FFFFu32,
                multiplier <= 0xFFFF_FFFFu32,
        ;
        hash = (((hash as u64) * (multiplier as u64) + (bytes[i] as u64)) % 0x1_0000_0000) as u32;
        i += 1;
    }
    assert(bytes@.take(i as int) =~= bytes@);
    hash
}

/// Whether `alignment` is a power of two.
pub open spec fn spec_is_valid_alignment(alignment: usize) -> bool {
    alignment != 0 && (alignment & (alignment - 1) as usize) == 0
}

/// Checks that an alignment is a power of two.
pub fn is_valid_alignment(alignment: usize) -> (r: bool)
    ensures
        r == spec_is_valid_alignment(alignment),
{
    alignment != 0 && (alignment & (alignment - 1)) == 0
}

/// Provides readonly access to a file that is stored in a SARC archive.
#[derive(Debug, PartialEq, Eq)]
pub struct File<'a> {
    name: Option<&'a str>,
    data: &'a [u8],
    index: usize,
}

/// Whether four bytes at `off` spell the given magic.
pub open spec fn spec_magic_at(data: Seq<u8>, off: int, magic: Seq<u8>) -> bool {
    off + magic.len() <= data.len() && data.subrange(off, off + magic.len()) == magic
}

fn magic_at(data: &[u8], off: usize, magic: &[u8]) -> (r: bool)
    ensures
        r == spec_magic_at(data@, off as int, magic@),
{
    if off > data.len() || magic.len() > data.len() - off {
        return false;
    }
    let mut i: usize = 0;
    while i < magic.len()
        invariant
            i <= magic@.len(),
            off + magic@.len() <= data@.len(),
            off + magic@.len() <= data.len(),
            forall|j: int| 0 <= j < i ==> data@[off + j] == magic@[j],
        decreases magic@.len() - i,
    {
        if data[off + i] != magic[i] {
            assert(data@.subrange(off as int, off + magic@.len())[i as int] != magic@[i as int]);
            return false;
        }
        i += 1;
    }
    assert(data@.subrange(off as int, off + magic@.len()) =~= magic@);
    true
}

impl<'a> File<'a> {
    /// Builds a file record.
    pub(crate) fn new(name: Option<&'a str>, data: &'a [u8], index: usize) -> (r: Self)
        ensures
            r.spec_name() == (match name {
                Some(s) => Some(s.spec_bytes()),
                None => None::<Seq<u8>>,
            }),
            r.spec_data() == data@,
            r.spec_index() == index,
    {
        File { name, data, index }
    }

    /// The file name's bytes, if the entry has a name.
    pub closed spec fn spec_name(&self) -> Option<Seq<u8>> {
        match self.name {
            Some(s) => Some(s.spec_bytes()),
            None => None,
        }
    }

    /// The file data.
    pub closed spec fn spec_data(&self) -> Seq<u8> {
        self.data@
    }

    /// The file index.
    pub closed spec fn spec_index(&self) -> usize {
        self.index
    }

    /// File name. May be empty for file entries that do not use the file name
    /// table.
    pub fn name(&self) -> (r: Option<&'a str>)
        ensures
            r is Some <==> self.spec_name() is Some,
            r matches Some(s) ==> self.spec_name() == Some(s.spec_bytes()),
    {
        self.name
    }

    /// File name, for a file that has one.
    pub fn unwrap_name(&self) -> (r: &'a str)
        requires
            self.spec_name() is Some,
        ensures
            self.spec_name() == Some(r.spec_bytes()),
    {
        self.name.unwrap()
    }

    /// File data (as a slice).
    pub fn data(&self) -> (r: &'a [u8])
        ensures
            r@ == self.spec_data(),
    {
        self.data
    }

    /// File index in the SARC archive.
    pub fn index(&self) -> (r: usize)
        ensures
            r == self.spec_index(),
    {
        self.index
    }

    /// Returns a decompressed copy of the file data.
    pub fn decompressed_data(&self) -> (r: crate::Result<Vec<u8>>)
        ensures
            self.spec_data().len() >= 0x16 && crate::yaz0::spec_has_magic(self.spec_data())
                && crate::yaz0::spec_decode(self.spec_data()) is Some ==> (r matches Ok(v) && v@
                == crate::yaz0::spec_decode(self.spec_data())->Some_0),
            !(self.spec_data().len() >= 0x16 && crate::yaz0::spec_has_magic(self.spec_data())
                && crate::yaz0::spec_decode(self.spec_data()) is Some) ==> r is Err,
    {
        crate::yaz0::decompress(self.data)
    }

    /// Check if the file is a SARC.
    pub fn is_sarc(&self) -> (r: bool)
        ensures
            r == (spec_magic_at(self.spec_data(), 0, seq![0x53u8, 0x41u8, 0x52u8, 0x43u8])
                || spec_magic_at(self.spec_data(), 0x11, seq![0x53u8, 0x41u8, 0x52u8, 0x43u8])),
    {
        let magic: [u8; 4] = [0x53, 0x41, 0x52, 0x43];
        assert(magic@ =~= seq![0x53u8, 0x41u8, 0x52u8, 0x43u8]);
        magic_at(self.data, 0, magic.as_slice()) || magic_at(self.data, 0x11, magic.as_slice())
    }

    /// Attempt to parse file as SARC.
    pub fn parse_sarc(&self) -> (r: crate::Result<Sarc>)
        ensures
            parse::spec_sarc_new_result(self.spec_data(), r),
    {
        Sarc::new(self.data)
    }

    /// Check if the file is yaz0 compressed.
    pub fn is_compressed(&self) -> (r: bool)
        ensures
            r == crate::yaz0::spec_has_magic(self.spec_data()),
    {
        self.data.len() >= 4 && self.data[0] == 0x59 && self.data[1] == 0x61 && self.data[2] == 0x7A
            && self.data[3] == 0x30
    }

    /// Check if the file is an AAMP.
    pub fn is_aamp(&self) -> (r: bool)
        ensures
            r == spec_magic_at(self.spec_data(), 0, seq![0x41u8, 0x41u8, 0x4Du8, 0x50u8]),
    {
        let magic: [u8; 4] = [0x41, 0x41, 0x4D, 0x50];
        assert(magic@ =~= seq![0x41u8, 0x41u8, 0x4Du8, 0x50u8]);
        magic_at(self.data, 0, magic.as_slice())
    }

    /// Check if the file is a BYML document.
    pub fn is_byml(&self) -> (r: bool)
        ensures
            r == (spec_magic_at(self.spec_data(), 0, seq![0x42u8, 0x59u8]) || spec_magic_at(
                self.spec_data(),
                0,
                seq![0x59u8, 0x42u8],
            ) || spec_magic_at(self.spec_data(), 0x11, seq![0x42u8, 0x59u8]) || spec_magic_at(
                self.spec_data(),
                0x11,
                seq![0x59u8, 0x42u8],
            )),
    {
        let by: [u8; 2] = [0x42, 0x59];
        let yb: [u8; 2] = [0x59, 0x42];
        assert(by@ =~= seq![0x42u8, 0x59u8]);
        assert(yb@ =~= seq![0x59u8, 0x42u8]);
        magic_at(self.data, 0, by.as_slice()) || magic_at(self.data, 0, yb.as_slice())
            || magic_at(self.data, 0x11, by.as_slice()) || magic_at(self.data, 0x11, yb.as_slice())
    }
}

} // verus!
