//! SARC archive reader.
use vstd::prelude::*;
use vstd::string::StringSliceAdditionalSpecFns;
use crate::{Endian, Error, Result};
use crate::util::{
    bytes_eq,
    find_null,
    gcd_u32,
    read_u16,
    read_u32,
    spec_find_null,
    spec_gcd,
    spec_read_u16,
    spec_read_u32,
    str_from_utf8,
};
use super::{File, hash_name, is_valid_alignment, spec_is_valid_alignment, spec_sarc_hash};

verus! {

/// Why a byte string is not a SARC archive.
#[derive(Debug, Clone, Copy, PartialEq, Eq)]
pub enum SarcFault {
    /// The data ends before a header does.
    Truncated,
    /// The byte order mark is neither `FE FF` nor `FF FE`.
    BadByteOrderMark,
    /// The version is not 0x100.
    BadVersion,
    /// The archive header size is not 0x14.
    BadHeaderSize,
    /// The SFAT header size is not 0x0C.
    BadFatHeaderSize,
    /// The archive claims 0x4000 files or more.
    TooManyFiles,
    /// The SFNT header size is not 0x08.
    BadFntHeaderSize,
    /// The data offset lies before the name table.
    BadNameTableOffset,
}

/// The byte order that the mark at offset 6 announces.
pub open spec fn spec_bom(d: Seq<u8>) -> Option<Endian> {
    if d.len() < 8 {
        None
    } else if d[6] == 0xFE && d[7] == 0xFF {
        Some(Endian::Big)
    } else if d[6] == 0xFF && d[7] == 0xFE {
        Some(Endian::Little)
    } else {
        None
    }
}

/// The number of files that the SFAT header announces.
pub open spec fn spec_num_files_of(d: Seq<u8>) -> u16 {
    spec_read_u16(d, 0x1A, spec_bom(d)->Some_0)
}

/// The offset of the first name in the SFNT table.
pub open spec fn spec_names_offset_of(d: Seq<u8>) -> int {
    0x28 + 16 * spec_num_files_of(d)
}

/// The multiplier of the name hash.
pub open spec fn spec_hash_multiplier_of(d: Seq<u8>) -> u32 {
    spec_read_u32(d, 0x1C, spec_bom(d)->Some_0)
}

/// The offset of the file data.
pub open spec fn spec_data_offset_of(d: Seq<u8>) -> u32 {
    spec_read_u32(d, 0x0C, spec_bom(d)->Some_0)
}

/// Field `k` (hash, name reference, data begin, data end) of entry `i`.
pub open spec fn spec_entry_of(d: Seq<u8>, i: int, k: int) -> u32 {
    spec_read_u32(d, 0x20 + 16 * i + 4 * k, spec_bom(d)->Some_0)
}

/// Where the name of entry `i` starts.
pub open spec fn spec_name_offset_of(d: Seq<u8>, i: int) -> int {
    spec_names_offset_of(d) + (spec_entry_of(d, i, 1) % 0x1000000) * 4
}

/// Entry `i` can be read without leaving the archive.
pub open spec fn spec_entry_ok_of(d: Seq<u8>, i: int) -> bool {
    let d0 = spec_data_offset_of(d) as int;
    &&& spec_entry_of(d, i, 2) <= spec_entry_of(d, i, 3)
    &&& d0 + spec_entry_of(d, i, 3) <= d.len()
    &&& d0 + spec_entry_of(d, i, 3) <= u32::MAX
    &&& spec_entry_of(d, i, 1) != 0 ==> spec_name_offset_of(d, i) <= d.len()
}

/// Every entry can be read without leaving the archive.
pub open spec fn spec_entries_ok_of(d: Seq<u8>) -> bool {
    forall|i: int| 0 <= i < spec_num_files_of(d) ==> #[trigger] spec_entry_ok_of(d, i)
}

/// The entries are ordered by name hash.
pub open spec fn spec_hashes_sorted_of(d: Seq<u8>) -> bool {
    forall|i: int, j: int|
        0 <= i < j < spec_num_files_of(d) ==> spec_entry_of(d, i, 0) <= spec_entry_of(d, j, 0)
}

/// The data of file `i`.
pub open spec fn spec_file_data_of(d: Seq<u8>, i: int) -> Seq<u8> {
    let d0 = spec_data_offset_of(d) as int;
    d.subrange(d0 + spec_entry_of(d, i, 2), d0 + spec_entry_of(d, i, 3))
}

/// Where the name of file `i` ends, if a NUL ends it.
pub open spec fn spec_name_end_of(d: Seq<u8>, i: int) -> Option<int> {
    spec_find_null(d, spec_name_offset_of(d, i))
}

/// The name bytes of file `i` (up to its NUL).
pub open spec fn spec_name_bytes_of(d: Seq<u8>, i: int) -> Seq<u8> {
    d.subrange(spec_name_offset_of(d, i), spec_name_end_of(d, i)->Some_0)
}

/// File `i` has no name, or a NUL-terminated UTF-8 one.
pub open spec fn spec_file_ok_of(d: Seq<u8>, i: int) -> bool {
    spec_entry_of(d, i, 1) == 0 || (spec_name_end_of(d, i) is Some && vstd::utf8::valid_utf8(
        spec_name_bytes_of(d, i),
    ))
}

/// The name of file `i`, if it has one.
pub open spec fn spec_file_name_of(d: Seq<u8>, i: int) -> Option<Seq<u8>> {
    if spec_entry_of(d, i, 1) == 0 {
        None
    } else {
        Some(spec_name_bytes_of(d, i))
    }
}

/// The first check that a byte string fails as a SARC archive, in the order
/// in which a reader meets them; `None` when it is one.
pub open spec fn spec_sarc_fault(d: Seq<u8>) -> Option<SarcFault> {
    if d.len() < 8 {
        Some(SarcFault::Truncated)
    } else if spec_bom(d) is None {
        Some(SarcFault::BadByteOrderMark)
    } else {
        let e = spec_bom(d)->Some_0;
        if d.len() < 0x14 {
            Some(SarcFault::Truncated)
        } else if spec_read_u16(d, 0x10, e) != 0x100 {
            Some(SarcFault::BadVersion)
        } else if spec_read_u16(d, 4, e) != 0x14 {
            Some(SarcFault::BadHeaderSize)
        } else if d.len() < 0x20 {
            Some(SarcFault::Truncated)
        } else if spec_read_u16(d, 0x18, e) != 0x0C {
            Some(SarcFault::BadFatHeaderSize)
        } else if spec_read_u16(d, 0x1A, e) >= 0x4000 {
            Some(SarcFault::TooManyFiles)
        } else {
            let f = 0x20 + 16 * spec_read_u16(d, 0x1A, e);
            if d.len() < f + 8 {
                Some(SarcFault::Truncated)
            } else if spec_read_u16(d, f + 4, e) != 8 {
                Some(SarcFault::BadFntHeaderSize)
            } else if spec_read_u32(d, 0x0C, e) < f + 8 {
                Some(SarcFault::BadNameTableOffset)
            } else {
                None
            }
        }
    }
}

/// The error that a reader reports for each fault.
pub open spec fn spec_fault_error(f: SarcFault, e: Error) -> bool {
    match f {
        SarcFault::Truncated => e is InsufficientData,
        SarcFault::BadByteOrderMark => e == Error::InvalidData("Invalid SARC byte order mark"),
        SarcFault::BadVersion => e == Error::InvalidData("Invalid SARC version (expected 0x100)"),
        SarcFault::BadHeaderSize => e == Error::InvalidData(
            "SARC header wrong size (expected 0x14)",
        ),
        SarcFault::BadFatHeaderSize => e == Error::InvalidData(
            "SFAT header wrong size (expected 0x0C)",
        ),
        SarcFault::TooManyFiles => e is InvalidDataD,
        SarcFault::BadFntHeaderSize => e == Error::InvalidData(
            "SFNT header wrong size (expected 0x8)",
        ),
        SarcFault::BadNameTableOffset => e == Error::InvalidData(
            "Invalid name table offset in SARC",
        ),
    }
}

/// What parsing uncompressed bytes gives: the fault's error, or an archive
/// over exactly these bytes.
pub open spec fn spec_parse_result(d: Seq<u8>, r: Result<Sarc>) -> bool {
    match spec_sarc_fault(d) {
        Some(f) => r matches Err(e) && spec_fault_error(f, e),
        None => r matches Ok(s) && s.data_view() == d,
    }
}

/// What `Sarc::new` gives: Yaz0 data is decompressed first.
pub open spec fn spec_sarc_new_result(d: Seq<u8>, r: Result<Sarc>) -> bool {
    if crate::yaz0::spec_has_magic(d) {
        if d.len() < 0x16 {
            r matches Err(Error::InsufficientData(_, _))
        } else {
            match crate::yaz0::spec_decode(d) {
                None => r matches Err(Error::InvalidData(_)),
                Some(o) => spec_parse_result(o, r),
            }
        }
    } else {
        spec_parse_result(d, r)
    }
}

/// A simple SARC archive reader
pub struct Sarc {
    num_files: u16,
    entries_offset: u16,
    hash_multiplier: u32,
    data_offset: u32,
    names_offset: u32,
    endian: Endian,
    data: Vec<u8>,
}

/// Builds the "too many files" message.
#[verifier::external_body]
fn too_many_files_message(n: u16) -> String {
    format!("Too many files in SARC ({})", n)
}

/// Builds the "no file at index" message.
#[verifier::external_body]
fn no_file_message(index: usize) -> String {
    format!("No file in SARC at index {}", index)
}

impl Sarc {
    #[verifier::type_invariant]
    spec fn wf(self) -> bool {
        let d = self.data@;
        &&& spec_sarc_fault(d) is None
        &&& self.endian == spec_bom(d)->Some_0
        &&& self.num_files == spec_num_files_of(d)
        &&& self.entries_offset == 0x20
        &&& self.hash_multiplier == spec_hash_multiplier_of(d)
        &&& self.data_offset == spec_data_offset_of(d)
        &&& self.names_offset == spec_names_offset_of(d)
    }

    /// The raw archive bytes.
    pub closed spec fn data_view(&self) -> Seq<u8> {
        self.data@
    }

    /// The archive byte order.
    pub open spec fn spec_endian(&self) -> Endian {
        spec_bom(self.data_view())->Some_0
    }

    /// The number of files.
    pub open spec fn spec_num_files(&self) -> u16 {
        spec_num_files_of(self.data_view())
    }

    /// The multiplier of the name hash.
    pub open spec fn spec_hash_multiplier(&self) -> u32 {
        spec_hash_multiplier_of(self.data_view())
    }

    /// The offset of the file data.
    pub open spec fn spec_data_offset(&self) -> u32 {
        spec_data_offset_of(self.data_view())
    }

    /// Field `k` (hash, name reference, data begin, data end) of entry `i`.
    pub open spec fn spec_entry(&self, i: int, k: int) -> u32 {
        spec_entry_of(self.data_view(), i, k)
    }

    /// Entry `i` can be read without leaving the archive.
    pub open spec fn spec_entry_ok(&self, i: int) -> bool {
        spec_entry_ok_of(self.data_view(), i)
    }

    /// Every entry can be read without leaving the archive.
    pub open spec fn spec_entries_ok(&self) -> bool {
        spec_entries_ok_of(self.data_view())
    }

    /// Every entry whose hash is `hash` can be read without leaving the
    /// archive: what a lookup by that hash touches.
    pub open spec fn spec_hash_entries_ok(&self, hash: u32) -> bool {
        forall|i: int|
            0 <= i < self.spec_num_files() && self.spec_entry(i, 0) == hash ==> #[trigger] self.spec_entry_ok(i)
    }

    /// Each entry that iteration reaches, the first one and each one after
    /// a file whose name can be read, can be read without leaving the
    /// archive.
    pub open spec fn spec_iter_entries_ok(&self) -> bool {
        forall|k: int|
            0 <= k < self.spec_num_files() && (forall|j: int| 0 <= j < k ==> self.spec_file_ok(j))
                ==> #[trigger] self.spec_entry_ok(k)
    }

    /// The start of each file's data, from the archive's start, fits in 32
    /// bits.
    pub open spec fn spec_begins_fit(&self) -> bool {
        forall|i: int|
            0 <= i < self.spec_num_files() ==> self.spec_data_offset() + #[trigger] self.spec_entry(i, 2)
                <= u32::MAX
    }

    /// Where every entry can be read, so can those that a lookup or
    /// iteration touches, and each file's data starts within 32 bits.
    pub proof fn entries_ok_covers(&self, hash: u32)
        requires
            self.spec_entries_ok(),
        ensures
            self.spec_hash_entries_ok(hash),
            self.spec_iter_entries_ok(),
            self.spec_begins_fit(),
    {
        assert forall|i: int| 0 <= i < self.spec_num_files() implies self.spec_data_offset()
            + #[trigger] self.spec_entry(i, 2) <= u32::MAX by {
            assert(self.spec_entry_ok(i));
        }
    }

    /// The entries are ordered by name hash.
    pub open spec fn spec_hashes_sorted(&self) -> bool {
        spec_hashes_sorted_of(self.data_view())
    }

    /// The data of file `i`.
    pub open spec fn spec_file_data(&self, i: int) -> Seq<u8> {
        spec_file_data_of(self.data_view(), i)
    }

    /// Where the name of file `i` ends, if a NUL ends it.
    pub open spec fn spec_name_end(&self, i: int) -> Option<int> {
        spec_name_end_of(self.data_view(), i)
    }

    /// The name bytes of file `i` (up to its NUL).
    pub open spec fn spec_name_bytes(&self, i: int) -> Seq<u8> {
        spec_name_bytes_of(self.data_view(), i)
    }

    /// File `i` has no name, or a NUL-terminated UTF-8 one.
    pub open spec fn spec_file_ok(&self, i: int) -> bool {
        spec_file_ok_of(self.data_view(), i)
    }

    /// The name of file `i`, if it has one.
    pub open spec fn spec_file_name(&self, i: int) -> Option<Seq<u8>> {
        spec_file_name_of(self.data_view(), i)
    }

    /// `f` is file `i`, recorded with index `idx`.
    pub open spec fn spec_is_file(&self, i: int, idx: usize, f: File) -> bool {
        &&& f.spec_name() == self.spec_file_name(i)
        &&& f.spec_data() == self.spec_file_data(i)
        &&& f.spec_index() == idx
    }

    /// What reading file `i` with index `idx` gives.
    pub open spec fn spec_file_result(&self, i: int, idx: usize, r: Result<File>) -> bool {
        if self.spec_entry(i, 1) == 0 {
            r matches Ok(f) && self.spec_is_file(i, idx, f)
        } else if self.spec_name_end(i) is None {
            r == Err::<File, Error>(
                Error::InvalidData("SARC filename contains unterminated string"),
            )
        } else if !vstd::utf8::valid_utf8(self.spec_name_bytes(i)) {
            r matches Err(Error::InvalidUtf8(_))
        } else {
            r matches Ok(f) && self.spec_is_file(i, idx, f)
        }
    }

    /// Parses a SARC archive from binary data, decompressing Yaz0 data first.
    pub fn new(data: &[u8]) -> (r: Result<Sarc>)
        ensures
            spec_sarc_new_result(data@, r),
    {
        if data.len() >= 4 && data[0] == 0x59 && data[1] == 0x61 && data[2] == 0x7A && data[3]
            == 0x30 {
            match crate::yaz0::decompress(data) {
                Ok(dec) => Self::parse(dec),
                Err(e) => Err(e),
            }
        } else {
            Self::parse(vstd::slice::slice_to_vec(data))
        }
    }

    /// Parses uncompressed archive bytes.
    fn parse(data: Vec<u8>) -> (r: Result<Sarc>)
        ensures
            spec_parse_result(data@, r),
    {
        let ghost d = data@;
        if data.len() < 8 {
            return Err(Error::InsufficientData(data.len(), 8));
        }
        let endian = if data[6] == 0xFE && data[7] == 0xFF {
            Endian::Big
        } else if data[6] == 0xFF && data[7] == 0xFE {
            Endian::Little
        } else {
            return Err(Error::InvalidData("Invalid SARC byte order mark"));
        };
        if data.len() < 0x14 {
            return Err(Error::InsufficientData(data.len(), 0x14));
        }
        if read_u16(&data, 0x10, endian) != 0x100 {
            return Err(Error::InvalidData("Invalid SARC version (expected 0x100)"));
        }
        if read_u16(&data, 4, endian) != 0x14 {
            return Err(Error::InvalidData("SARC header wrong size (expected 0x14)"));
        }
        let data_offset = read_u32(&data, 0x0C, endian);
        if data.len() < 0x20 {
            return Err(Error::InsufficientData(data.len(), 0x20));
        }
        if read_u16(&data, 0x18, endian) != 0x0C {
            return Err(Error::InvalidData("SFAT header wrong size (expected 0x0C)"));
        }
        let num_files = read_u16(&data, 0x1A, endian);
        if num_files >= 0x4000 {
            return Err(Error::InvalidDataD(too_many_files_message(num_files)));
        }
        let hash_multiplier = read_u32(&data, 0x1C, endian);
        let fnt_header_offset: usize = 0x20 + 16 * (num_files as usize);
        if data.len() < fnt_header_offset + 8 {
            return Err(Error::InsufficientData(data.len(), fnt_header_offset + 8));
        }
        if read_u16(&data, fnt_header_offset + 4, endian) != 8 {
            return Err(Error::InvalidData("SFNT header wrong size (expected 0x8)"));
        }
        let names_offset: u32 = (fnt_header_offset + 8) as u32;
        if data_offset < names_offset {
            return Err(Error::InvalidData("Invalid name table offset in SARC"));
        }
        Ok(Sarc {
            num_files,
            entries_offset: 0x20,
            hash_multiplier,
            data_offset,
            names_offset,
            endian,
            data,
        })
    }

    /// Get the number of files that are stored in the archive
    pub fn len(&self) -> (r: usize)
        ensures
            r == self.spec_num_files(),
    {
        proof {
            use_type_invariant(self);
        }
        self.num_files as usize
    }

    /// Check if the SARC contains no files.
    pub fn is_empty(&self) -> (r: bool)
        ensures
            r == (self.spec_num_files() == 0),
    {
        proof {
            use_type_invariant(self);
        }
        self.num_files == 0
    }

    /// Get the offset to the beginning of file data
    pub fn data_offset(&self) -> (r: usize)
        ensures
            r == self.spec_data_offset(),
    {
        proof {
            use_type_invariant(self);
        }
        self.data_offset as usize
    }

    /// Get the archive endianness
    pub fn endian(&self) -> (r: Endian)
        ensures
            r == self.spec_endian(),
    {
        proof {
            use_type_invariant(self);
        }
        self.endian
    }

    /// Reads field `k` of entry `i`.
    fn entry_field(&self, i: usize, k: usize) -> (r: u32)
        requires
            i < self.spec_num_files(),
            k < 4,
        ensures
            r == self.spec_entry(i as int, k as int),
    {
        proof {
            use_type_invariant(self);
        }
        read_u32(&self.data, 0x20 + 16 * i + 4 * k, self.endian)
    }

    /// Binary search of the entries by name hash.
    fn find_file(&self, file: &str) -> (r: Option<usize>)
        ensures
            r matches Some(i) ==> i < self.spec_num_files() && self.spec_entry(i as int, 0)
                == spec_sarc_hash(self.spec_hash_multiplier(), file.spec_bytes()),
            r is None ==> (self.spec_hashes_sorted() ==> forall|i: int|
                0 <= i < self.spec_num_files() ==> self.spec_entry(i, 0) != spec_sarc_hash(
                    self.spec_hash_multiplier(),
                    file.spec_bytes(),
                )),
    {
        proof {
            use_type_invariant(self);
        }
        if self.num_files == 0 {
            return None;
        }
        let needle = hash_name(self.hash_multiplier, file);
        let n = self.num_files as u32;
        let mut a: u32 = 0;
        let mut b: u32 = n - 1;
        while a <= b
            invariant
                n == self.spec_num_files(),
                b < n,
                a <= b + 1,
                needle == spec_sarc_hash(self.spec_hash_multiplier(), file.spec_bytes()),
                self.spec_hashes_sorted() ==> forall|i: int|
                    0 <= i < a ==> self.spec_entry(i, 0) < needle,
                self.spec_hashes_sorted() ==> forall|i: int|
                    b < i < n ==> self.spec_entry(i, 0) > needle,
            decreases b + 1 - a,
        {
            let m = (a + b) / 2;
            let h = self.entry_field(m as usize, 0);
            if needle < h {
                if m == 0 {
                    return None;
                }
                b = m - 1;
            } else if needle > h {
                a = m + 1;
            } else {
                return Some(m as usize);
            }
        }
        None
    }

    /// Whether entry `index` can be read without leaving the archive: its
    /// data range is ordered and inside the archive, and its name starts
    /// inside it.
    pub fn entry_ok(&self, index: usize) -> (r: bool)
        requires
            index < self.spec_num_files(),
        ensures
            r == self.spec_entry_ok(index as int),
    {
        proof {
            use_type_invariant(self);
        }
        let rel = self.entry_field(index, 1) as u64;
        let begin = self.entry_field(index, 2) as u64;
        let end = self.entry_field(index, 3) as u64;
        let len = self.data.len() as u64;
        let d0 = self.data_offset as u64;
        let names_ok = rel == 0 || self.names_offset as u64 + (rel % 0x1000000) * 4 <= len;
        begin <= end && d0 + end <= len && d0 + end <= 0xFFFF_FFFF && names_ok
    }

    /// Whether every entry can be read without leaving the archive.
    pub fn entries_ok(&self) -> (r: bool)
        ensures
            r == self.spec_entries_ok(),
    {
        proof {
            use_type_invariant(self);
        }
        let n = self.num_files as usize;
        let mut i: usize = 0;
        while i < n
            invariant
                n == self.spec_num_files(),
                i <= n,
                forall|j: int| 0 <= j < i ==> #[trigger] self.spec_entry_ok(j),
            decreases n - i,
        {
            if !self.entry_ok(i) {
                return false;
            }
            i += 1;
        }
        assert forall|j: int| 0 <= j < spec_num_files_of(self.data_view()) implies #[trigger] spec_entry_ok_of(
            self.data_view(),
            j,
        ) by {
            assert(self.spec_entry_ok(j));
        }
        true
    }

    /// Reads file `index`, recording it with index `idx`.
    fn read_file(&self, index: usize, idx: usize) -> (r: Result<File<'_>>)
        requires
            index < self.spec_num_files(),
            self.spec_entry_ok(index as int),
        ensures
            self.spec_file_result(index as int, idx, r),
    {
        proof {
            use_type_invariant(self);
        }
        let rel = self.entry_field(index, 1);
        let begin = self.entry_field(index, 2);
        let end = self.entry_field(index, 3);
        let data = vstd::slice::slice_subrange(
            self.data.as_slice(),
            (self.data_offset + begin) as usize,
            (self.data_offset + end) as usize,
        );
        if rel == 0 {
            return Ok(File::new(None, data, idx));
        }
        let name_offset: usize = self.names_offset as usize + ((rel % 0x1000000) as usize) * 4;
        match find_null(self.data.as_slice(), name_offset) {
            None => Err(Error::InvalidData("SARC filename contains unterminated string")),
            Some(term) => {
                let name_bytes = vstd::slice::slice_subrange(self.data.as_slice(), name_offset, term);
                match str_from_utf8(name_bytes) {
                    Ok(name) => Ok(File::new(Some(name), data, idx)),
                    Err(e) => Err(Error::InvalidUtf8(e)),
                }
            },
        }
    }

    /// Get a file by index. Returns error if index > file count.
    pub fn file_at(&self, index: usize) -> (r: Result<File<'_>>)
        requires
            index >= self.spec_num_files() || self.spec_entry_ok(index as int),
        ensures
            index >= self.spec_num_files() ==> r matches Err(Error::InvalidDataD(_)),
            index < self.spec_num_files() ==> self.spec_file_result(index as int, index, r),
    {
        proof {
            use_type_invariant(self);
        }
        if index >= self.num_files as usize {
            return Err(Error::InvalidDataD(no_file_message(index)));
        }
        self.read_file(index, index)
    }

    /// Get a file by name: the entry whose hash is the name's hash.
    pub fn get_file(&self, file: &str) -> (r: Result<Option<File<'_>>>)
        requires
            self.spec_hash_entries_ok(spec_sarc_hash(self.spec_hash_multiplier(), file.spec_bytes())),
        ensures
            ({
                let needle = spec_sarc_hash(self.spec_hash_multiplier(), file.spec_bytes());
                match r {
                    Ok(Some(f)) => {
                        let i = f.spec_index() as int;
                        &&& 0 <= i < self.spec_num_files()
                        &&& self.spec_entry(i, 0) == needle
                        &&& self.spec_is_file(i, i as usize, f)
                    },
                    Ok(None) => self.spec_hashes_sorted() ==> forall|i: int|
                        0 <= i < self.spec_num_files() ==> self.spec_entry(i, 0) != needle,
                    Err(e) => exists|i: int|
                        0 <= i < self.spec_num_files() && self.spec_entry(i, 0) == needle
                            && self.spec_file_result(i, i as usize, Err(e)),
                }
            }),
    {
        match self.find_file(file) {
            None => Ok(None),
            Some(i) => {
                assert(self.spec_entry_ok(i as int));
                match self.read_file(i, i) {
                    Ok(f) => Ok(Some(f)),
                    Err(e) => Err(e),
                }
            },
        }
    }

    /// Get file data by name.
    pub fn get_data(&self, file: &str) -> (r: Result<Option<&[u8]>>)
        requires
            self.spec_hash_entries_ok(spec_sarc_hash(self.spec_hash_multiplier(), file.spec_bytes())),
        ensures
            ({
                let needle = spec_sarc_hash(self.spec_hash_multiplier(), file.spec_bytes());
                match r {
                    Ok(Some(d)) => exists|i: int|
                        0 <= i < self.spec_num_files() && self.spec_entry(i, 0) == needle && d@
                            == self.spec_file_data(i),
                    Ok(None) => self.spec_hashes_sorted() ==> forall|i: int|
                        0 <= i < self.spec_num_files() ==> self.spec_entry(i, 0) != needle,
                    Err(_) => false,
                }
            }),
    {
        proof {
            use_type_invariant(self);
        }
        match self.find_file(file) {
            None => Ok(None),
            Some(i) => {
                assert(self.spec_entry_ok(i as int));
                let begin = self.entry_field(i, 2);
                let end = self.entry_field(i, 3);
                let d = vstd::slice::slice_subrange(
                    self.data.as_slice(),
                    (self.data_offset + begin) as usize,
                    (self.data_offset + end) as usize,
                );
                assert(d@ == self.spec_file_data(i as int));
                Ok(Some(d))
            },
        }
    }

    /// Returns an iterator over the contained files
    pub fn files(&self) -> (r: FileIterator<'_>)
        ensures
            r.spec_sarc() == self,
            r.spec_position() == 0,
    {
        FileIterator { sarc: self, index: 0 }
    }

    /// The greatest common divisor of 4 and the data start offsets of the
    /// first `k` files.
    pub open spec fn spec_gcd_prefix(&self, k: int) -> nat
        decreases k,
    {
        if k <= 0 {
            4
        } else {
            spec_gcd(
                self.spec_gcd_prefix(k - 1),
                (self.spec_data_offset() + self.spec_entry(k - 1, 2)) as nat,
            )
        }
    }

    /// Guess the minimum data alignment for files that are stored in the
    /// archive: the greatest common divisor of 4 and the data start offsets,
    /// if it is a power of two, and 4 otherwise.
    pub fn guess_min_alignment(&self) -> (r: usize)
        requires
            self.spec_begins_fit(),
        ensures
            ({
                let g = self.spec_gcd_prefix(self.spec_num_files() as int);
                r == if spec_is_valid_alignment(g as usize) {
                    g as usize
                } else {
                    4usize
                }
            }),
    {
        proof {
            use_type_invariant(self);
        }
        let mut gcd: u32 = 4;
        let n = self.num_files as usize;
        let mut i: usize = 0;
        while i < n
            invariant
                n == self.spec_num_files(),
                i <= n,
                self.spec_begins_fit(),
                gcd == self.spec_gcd_prefix(i as int),
                self.data_offset == self.spec_data_offset(),
            decreases n - i,
        {
            let begin = self.entry_field(i, 2);
            assert(self.spec_data_offset() + self.spec_entry(i as int, 2) <= u32::MAX);
            gcd = gcd_u32(gcd, self.data_offset + begin);
            i += 1;
        }
        if !is_valid_alignment(gcd as usize) {
            return 4;
        }
        gcd as usize
    }

    /// Comparing archives' files is reflexive and symmetric; where every
    /// file of both archives has a readable name, archives hold the same
    /// files exactly when they have as many files and each file has the same
    /// name and data in both.
    pub proof fn files_equal_laws(sarc1: &Sarc, sarc2: &Sarc)
        ensures
            Sarc::spec_files_equal(sarc1, sarc1),
            Sarc::spec_files_equal(sarc1, sarc2) == Sarc::spec_files_equal(sarc2, sarc1),
            (forall|j: int| 0 <= j < sarc1.spec_num_files() ==> #[trigger] sarc1.spec_file_ok(j))
                && (forall|j: int| 0 <= j < sarc2.spec_num_files() ==> #[trigger] sarc2.spec_file_ok(j))
                ==> (Sarc::spec_files_equal(sarc1, sarc2) <==> (sarc1.spec_num_files()
                == sarc2.spec_num_files() && forall|i: int|
                0 <= i < sarc1.spec_num_files() ==> #[trigger] Sarc::spec_same_file(sarc1, sarc2, i))),
    {
        if Sarc::spec_files_equal(sarc1, sarc2) {
            assert forall|i: int|
                0 <= i < sarc2.spec_num_files() && (forall|j: int|
                    0 <= j <= i ==> sarc2.spec_file_ok(j) && sarc1.spec_file_ok(j))
                    implies #[trigger] Sarc::spec_same_file(sarc2, sarc1, i) by {
                assert(Sarc::spec_same_file(sarc1, sarc2, i));
            }
        }
        if Sarc::spec_files_equal(sarc2, sarc1) {
            assert forall|i: int|
                0 <= i < sarc1.spec_num_files() && (forall|j: int|
                    0 <= j <= i ==> sarc1.spec_file_ok(j) && sarc2.spec_file_ok(j))
                    implies #[trigger] Sarc::spec_same_file(sarc1, sarc2, i) by {
                assert(Sarc::spec_same_file(sarc2, sarc1, i));
            }
        }
    }

    /// Whether file `i` is the same in both archives: same name and data.
    pub open spec fn spec_same_file(s1: &Sarc, s2: &Sarc, i: int) -> bool {
        s1.spec_file_name(i) == s2.spec_file_name(i) && s1.spec_file_data(i) == s2.spec_file_data(i)
    }

    /// Both archives hold the same files: same count, and the same name and
    /// data for each file that both archives list before the first file
    /// whose name cannot be read.
    pub open spec fn spec_files_equal(sarc1: &Sarc, sarc2: &Sarc) -> bool {
        sarc1.spec_num_files() == sarc2.spec_num_files() && forall|i: int|
            0 <= i < sarc1.spec_num_files() && (forall|j: int|
                0 <= j <= i ==> sarc1.spec_file_ok(j) && sarc2.spec_file_ok(j))
                ==> #[trigger] Sarc::spec_same_file(sarc1, sarc2, i)
    }

    /// Returns true is each archive contains the same files: same count, and
    /// the same name and data for each file that both archives list before
    /// the first file whose name cannot be read.
    pub fn are_files_equal(sarc1: &Sarc, sarc2: &Sarc) -> (r: bool)
        requires
            forall|k: int|
                0 <= k < sarc1.spec_num_files() && k < sarc2.spec_num_files() && (forall|j: int|
                    0 <= j < k ==> sarc1.spec_file_ok(j) && sarc2.spec_file_ok(j)) ==> #[trigger] sarc1.spec_entry_ok(k)
                    && (sarc1.spec_file_ok(k) ==> sarc2.spec_entry_ok(k)),
        ensures
            r == Sarc::spec_files_equal(sarc1, sarc2),
    {
        if sarc1.len() != sarc2.len() {
            return false;
        }
        let mut it1 = sarc1.files();
        let mut it2 = sarc2.files();
        let ghost n = sarc1.spec_num_files() as int;
        loop
            invariant
                n == sarc1.spec_num_files(),
                n == sarc2.spec_num_files(),
                forall|k: int|
                    0 <= k < sarc1.spec_num_files() && k < sarc2.spec_num_files() && (forall|j: int|
                        0 <= j < k ==> sarc1.spec_file_ok(j) && sarc2.spec_file_ok(j)) ==> #[trigger] sarc1.spec_entry_ok(k)
                        && (sarc1.spec_file_ok(k) ==> sarc2.spec_entry_ok(k)),
                it1.spec_sarc() == sarc1,
                it2.spec_sarc() == sarc2,
                it1.spec_position() == it2.spec_position(),
                it1.spec_position() <= n,
                forall|j: int| 0 <= j < it1.spec_position() ==> #[trigger] sarc1.spec_file_ok(j),
                forall|j: int| 0 <= j < it1.spec_position() ==> #[trigger] sarc2.spec_file_ok(j),
                forall|j: int|
                    0 <= j < it1.spec_position() ==> #[trigger] Sarc::spec_same_file(sarc1, sarc2, j),
            decreases n - it1.spec_position(),
        {
            let ghost k = it1.spec_position() as int;
            match it1.next() {
                None => {
                    assert forall|i: int|
                        0 <= i < sarc1.spec_num_files() && (forall|j: int|
                            0 <= j <= i ==> sarc1.spec_file_ok(j) && sarc2.spec_file_ok(j))
                            implies #[trigger] Sarc::spec_same_file(sarc1, sarc2, i) by {
                        if i >= k {
                            assert(sarc1.spec_file_ok(k) && sarc2.spec_file_ok(k));
                        }
                    }
                    return true;
                },
                Some(f1) => {
                    assert(sarc1.spec_entry_ok(k) && (sarc1.spec_file_ok(k) ==> sarc2.spec_entry_ok(k)));
                    match it2.next() {
                        None => {
                            assert forall|i: int|
                                0 <= i < sarc1.spec_num_files() && (forall|j: int|
                                    0 <= j <= i ==> sarc1.spec_file_ok(j) && sarc2.spec_file_ok(j))
                                    implies #[trigger] Sarc::spec_same_file(sarc1, sarc2, i) by {
                                if i >= k {
                                    assert(sarc1.spec_file_ok(k) && sarc2.spec_file_ok(k));
                                }
                            }
                            return true;
                        },
                        Some(f2) => {
                            if !files_eq(&f1, &f2) {
                                assert(!Sarc::spec_same_file(sarc1, sarc2, k));
                                assert forall|j: int| 0 <= j <= k implies sarc1.spec_file_ok(j)
                                    && sarc2.spec_file_ok(j) by {
                                    if j < k {
                                        assert(Sarc::spec_same_file(sarc1, sarc2, j));
                                    }
                                }
                                return false;
                            }
                            assert(sarc1.spec_file_ok(k));
                            assert(sarc2.spec_file_ok(k));
                            assert(Sarc::spec_same_file(sarc1, sarc2, k));

                        },
                    }
                },
            }
        }
    }
}

/// Compares two files by name and data.
fn files_eq(f1: &File, f2: &File) -> (r: bool)
    ensures
        r == (f1.spec_name() == f2.spec_name() && f1.spec_data() == f2.spec_data()),
{
    let same_name = match (f1.name(), f2.name()) {
        (None, None) => true,
        (Some(a), Some(b)) => bytes_eq(a.as_bytes(), b.as_bytes()),
        _ => false,
    };
    same_name && bytes_eq(f1.data(), f2.data())
}

/// Iterator over [`File`] entries in a [`Sarc`].
pub struct FileIterator<'a> {
    sarc: &'a Sarc,
    index: usize,
}

impl<'a> FileIterator<'a> {
    /// The archive iterated over.
    pub closed spec fn spec_sarc(&self) -> &'a Sarc {
        self.sarc
    }

    /// How many entries have been visited.
    pub closed spec fn spec_position(&self) -> usize {
        self.index
    }

    /// The next file. The position advances past every entry visited, also
    /// when the entry's name cannot be read; then `None` is returned. A file
    /// from the iterator records its index in the archive.
    pub fn next(&mut self) -> (r: Option<File<'a>>)
        requires
            old(self).spec_position() < old(self).spec_sarc().spec_num_files() ==> old(
                self,
            ).spec_sarc().spec_entry_ok(old(self).spec_position() as int),
        ensures
            final(self).spec_sarc() == old(self).spec_sarc(),
            ({
                let s = old(self).spec_sarc();
                let i = old(self).spec_position() as int;
                if i >= s.spec_num_files() {
                    r is None && final(self).spec_position() == i
                } else {
                    &&& final(self).spec_position() == i + 1
                    &&& r is Some <==> s.spec_file_ok(i)
                    &&& r matches Some(f) ==> s.spec_is_file(i, i as usize, f)
                }
            }),
    {
        let n = self.sarc.len();
        if self.index >= n {
            return None;
        }
        let i = self.index;
        assert(self.sarc.spec_entry_ok(i as int));
        self.index = i + 1;
        match self.sarc.read_file(i, i) {
            Ok(f) => Some(f),
            Err(_) => None,
        }
    }

    /// Takes every file that the iterator still yields, as collecting it
    /// does: the files from its position on, in order, each with its own
    /// index, up to the first entry whose name cannot be read. Where every
    /// name can be read, that is every file from the position on.
    pub fn collect_files(self) -> (r: Vec<File<'a>>)
        requires
            forall|k: int|
                self.spec_position() <= k < self.spec_sarc().spec_num_files() && (forall|j: int|
                    self.spec_position() <= j < k ==> self.spec_sarc().spec_file_ok(j))
                    ==> #[trigger] self.spec_sarc().spec_entry_ok(k),
        ensures
            ({
                let s = self.spec_sarc();
                let p = self.spec_position() as int;
                let n = s.spec_num_files() as int;
                &&& p >= n ==> r@.len() == 0
                &&& p < n ==> p + r@.len() <= n
                &&& forall|j: int| p <= j < p + r@.len() ==> #[trigger] s.spec_file_ok(j)
                &&& forall|i: int|
                    0 <= i < r@.len() ==> #[trigger] s.spec_is_file(p + i, (p + i) as usize, r@[i])
                &&& p + r@.len() < n ==> !s.spec_file_ok(p + r@.len())
                &&& p < n && (forall|j: int| p <= j < n ==> s.spec_file_ok(j)) ==> r@.len() == n - p
            }),
    {
        let ghost s = self.spec_sarc();
        let ghost p = self.spec_position() as int;
        let ghost n = s.spec_num_files() as int;
        let mut it = self;
        let mut v: Vec<File<'a>> = Vec::new();
        if it.index >= it.sarc.len() {
            return v;
        }
        loop
            invariant
                it.spec_sarc() == s,
                s == self.spec_sarc(),
                p == self.spec_position() as int,
                n == s.spec_num_files(),
                p < n,
                it.spec_position() == p + v@.len(),
                p + v@.len() <= n,
                forall|j: int| p <= j < p + v@.len() ==> #[trigger] s.spec_file_ok(j),
                forall|i: int|
                    0 <= i < v@.len() ==> #[trigger] s.spec_is_file(p + i, (p + i) as usize, v@[i]),
                forall|k: int|
                    p <= k < n && (forall|j: int| p <= j < k ==> s.spec_file_ok(j))
                        ==> #[trigger] s.spec_entry_ok(k),
            decreases n - v@.len(),
        {
            let ghost k = it.spec_position() as int;
            proof {
                if k < n {
                    assert(s.spec_entry_ok(k));
                }
            }
            match it.next() {
                Some(f) => {
                    v.push(f);
                    proof {
                        assert forall|i: int| 0 <= i < v@.len() implies #[trigger] s.spec_is_file(
                            p + i,
                            (p + i) as usize,
                            v@[i],
                        ) by {
                            if i < v@.len() - 1 {
                                assert(v@[i] == v@.drop_last()[i]);
                            }
                        }
                    }
                },
                None => {
                    return v;
                },
            }
        }
    }
}

} // verus!
