//! AAMP parameter structure names, which binary parameter archives store as
//! CRC32 hashes.
use vstd::prelude::*;
use vstd::string::StringSliceAdditionalSpecFns;

pub mod names;
pub mod param;
pub mod binary;
pub mod access;
pub mod reader;
pub mod writer;
pub mod queue;
pub mod roundtrip;
pub mod readback;

pub use names::NameTable;



verus! {

/// One bit step of the reflected CRC32 (polynomial `0xEDB88320`).
pub open spec fn crc_step(crc: u32) -> u32 {
    if crc & 1 == 1 {
        (crc >> 1) ^ 0xEDB88320u32
    } else {
        crc >> 1
    }
}

/// `n` bit steps of the CRC32.
pub open spec fn crc_steps(crc: u32, n: nat) -> u32
    decreases n,
{
    if n == 0 {
        crc
    } else {
        crc_step(crc_steps(crc, (n - 1) as nat))
    }
}

/// The CRC32 register after feeding `bytes`, starting from `init`.
pub open spec fn crc_update(init: u32, bytes: Seq<u8>) -> u32
    decreases bytes.len(),
{
    if bytes.len() == 0 {
        init
    } else {
        crc_steps(crc_update(init, bytes.drop_last()) ^ (bytes.last() as u32), 8)
    }
}

/// The CRC32 of a byte string, as used for names in BOTW.
pub open spec fn spec_hash_name(bytes: Seq<u8>) -> u32 {
    !crc_update(0xFFFFFFFFu32, bytes)
}

/// CRC hash function matching that used in BOTW.
pub fn hash_name(name: &str) -> (r: u32)
    ensures
        r == spec_hash_name(name.spec_bytes()),
{
    hash_bytes(name.as_bytes())
}

/// The CRC32 of a byte string.
pub fn hash_bytes(bytes: &[u8]) -> (r: u32)
    ensures
        r == spec_hash_name(bytes@),
{
    let mut crc: u32 = 0xFFFFFFFF;
    let mut i: usize = 0;
    while i < bytes.len()
        invariant
            i <= bytes@.len(),
            crc == crc_update(0xFFFFFFFFu32, bytes@.take(i as int)),
        decreases bytes@.len() - i,
    {
        let ghost start = crc ^ (bytes@[i as int] as u32);
        crc = crc ^ (bytes[i] as u32);
        let mut j: usize = 0;
        while j < 8
            invariant
                j <= 8,
                crc == crc_steps(start, j as nat),
            decreases 8 - j,
        {
            if crc & 1 == 1 {
                crc = (crc >> 1) ^ 0xEDB88320;
            } else {
                crc = crc >> 1;
            }
            j += 1;
        }
        assert(bytes@.take(i + 1).drop_last() =~= bytes@.take(i as int));
        i += 1;
    }
    assert(bytes@.take(i as int) =~= bytes@);
    !crc
}

/// The type that a parameter-specific YAML tag asks for.
pub fn recognize_tag(tag: &str) -> (r: Option<crate::yaml::TagBasedType>)
    ensures
        r == if tag@ == "!str32"@ || tag@ == "!str64"@ || tag@ == "!str256"@ {
            Some(crate::yaml::TagBasedType::Str)
        } else if tag@ == "!u"@ {
            Some(crate::yaml::TagBasedType::Int)
        } else {
            None
        },
{
    if crate::yaml::str_eq(tag, "!str32") || crate::yaml::str_eq(tag, "!str64")
        || crate::yaml::str_eq(tag, "!str256") {
        Some(crate::yaml::TagBasedType::Str)
    } else if crate::yaml::str_eq(tag, "!u") {
        Some(crate::yaml::TagBasedType::Int)
    } else {
        None
    }
}

/// Parameter structure name. This is a wrapper around a CRC32 hash.
#[derive(Debug, Clone, Copy, PartialEq, Eq, Hash, Structural)]
pub struct Name(u32);

impl Name {
    /// The CRC32 hash of the name.
    pub closed spec fn spec_hash(&self) -> u32 {
        self.0
    }

    /// The CRC32 hash of the name.
    pub fn hash(&self) -> (r: u32)
        ensures
            r == self.spec_hash(),
    {
        self.0
    }

    /// Constructs a name from a string, by hashing it.
    pub fn from_str(s: &str) -> (r: Self)
        ensures
            r.spec_hash() == spec_hash_name(s.spec_bytes()),
    {
        Name(hash_name(s))
    }

    /// Two names are the same exactly when their hashes are.
    pub proof fn lemma_eq(a: Name, b: Name)
        ensures
            (a == b) <==> (a.spec_hash() == b.spec_hash()),
    {
    }

    /// Constructs a name from an already computed hash.
    pub fn from_hash(hash: u32) -> (r: Self)
        ensures
            r.spec_hash() == hash,
    {
        Name(hash)
    }
}

} // verus!
