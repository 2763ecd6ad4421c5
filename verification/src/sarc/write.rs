//! SARC archive writer.
use vstd::prelude::*;
use vstd::string::StringSliceAdditionalSpecFns;
use crate::{Endian, Error, Result};
use crate::util::{
    align_pos,
    lemma_align_pos_bounds,
    bytes_eq,
    lcm_usize,
    push_u16,
    push_u32,
    read_u16,
    read_u32,
    spec_align_pos,
    spec_apply_writes,
    spec_lcm,
    spec_read_u16,
    spec_read_u32,
    spec_u16_bytes,
    spec_u32_bytes,
    spec_write_at,
    write_at,
};
use vstd::arithmetic::power2::pow2;
use super::{hash_name, is_valid_alignment, magic_at, spec_is_valid_alignment, spec_magic_at, spec_sarc_hash};
use super::parse::Sarc;
use super::roundtrip::{map_values_valid, spec_reads_back, writer_reads_back};

verus! {

broadcast use vstd::slice::group_slice_axioms;

/// The name hash multiplier that the writer uses.
pub const HASH_MULTIPLIER: u32 = 0x65;

/// The bytes of a string.
pub open spec fn str_bytes(s: Seq<char>) -> Seq<u8> {
    vstd::utf8::encode_utf8(s)
}

/// The hash of a file name, with the writer's multiplier.
pub open spec fn file_hash(name: Seq<char>) -> u32 {
    spec_sarc_hash(0x65, str_bytes(name))
}

/// A file name, ordered by its hash.
#[derive(Debug)]
pub struct FileName(String);

impl View for FileName {
    type V = Seq<char>;

    closed spec fn view(&self) -> Seq<char> {
        self.0@
    }
}

impl FileName {
    /// Makes a file name from a string.
    pub fn new(name: &str) -> (r: Self)
        ensures
            r@ == name@,
    {
        FileName(name.to_owned())
    }

    /// The name as a string slice.
    pub fn as_str(&self) -> (r: &str)
        ensures
            r@ == self@,
    {
        self.0.as_str()
    }

    /// The name's hash, as the archive stores it.
    pub fn hash(&self) -> (r: u32)
        ensures
            r == file_hash(self@),
    {
        hash_name(HASH_MULTIPLIER, self.0.as_str())
    }
}

/// The files of a writer: names and data, ordered by name hash.
pub open spec fn files_view(files: Seq<(FileName, Vec<u8>)>) -> Seq<(Seq<char>, Seq<u8>)> {
    files.map_values(|f: (FileName, Vec<u8>)| (f.0@, f.1@))
}

/// The names are ordered by strictly increasing hash.
pub open spec fn files_sorted(files: Seq<(Seq<char>, Seq<u8>)>) -> bool {
    forall|i: int, j: int|
        0 <= i < j < files.len() ==> file_hash(files[i].0) < file_hash(files[j].0)
}

/// Where a file with name hash `h` goes: the number of files with a
/// smaller hash.
pub open spec fn insert_position(files: Seq<(Seq<char>, Seq<u8>)>, h: u32) -> int {
    choose|k: int| #[trigger] is_insert_position(files, h, k)
}

/// `k` splits the files into those with a smaller hash than `h` and the rest.
pub open spec fn is_insert_position(files: Seq<(Seq<char>, Seq<u8>)>, h: u32, k: int) -> bool {
    0 <= k <= files.len() && (forall|j: int| 0 <= j < k ==> file_hash(files[j].0) < h) && (forall|
        j: int,
    | k <= j < files.len() ==> file_hash(files[j].0) >= h)
}

/// Adding a file to an ordered file list: a file with the same name hash
/// keeps its name and takes the new data; otherwise the file is inserted at
/// its place.
pub open spec fn spec_insert_file(
    files: Seq<(Seq<char>, Seq<u8>)>,
    name: Seq<char>,
    data: Seq<u8>,
) -> Seq<(Seq<char>, Seq<u8>)> {
    let k = insert_position(files, file_hash(name));
    if k < files.len() && file_hash(files[k].0) == file_hash(name) {
        files.update(k, (files[k].0, data))
    } else {
        files.insert(k, (name, data))
    }
}

/// Adding files one after another.
pub open spec fn spec_insert_files(
    files: Seq<(Seq<char>, Seq<u8>)>,
    items: Seq<(Seq<char>, Seq<u8>)>,
) -> Seq<(Seq<char>, Seq<u8>)>
    decreases items.len(),
{
    if items.len() == 0 {
        files
    } else {
        spec_insert_file(spec_insert_files(files, items.drop_last()), items.last().0, items.last().1)
    }
}

/// Setting an alignment requirement: an entry for the same extension takes
/// the new value; otherwise the entry is appended.
pub open spec fn spec_map_insert(map: Seq<(Seq<char>, usize)>, key: Seq<char>, value: usize) -> Seq<
    (Seq<char>, usize),
> {
    if exists|i: int| 0 <= i < map.len() && map[i].0 == key {
        let i = choose|i: int| 0 <= i < map.len() && map[i].0 == key;
        map.update(i, (key, value))
    } else {
        map.push((key, value))
    }
}

/// The extensions of an alignment table are distinct.
pub open spec fn map_keys_unique(map: Seq<(Seq<char>, usize)>) -> bool {
    forall|i: int, j: int| 0 <= i < j < map.len() ==> map[i].0 != map[j].0
}

/// The alignment that the table gives for an extension: the value of the
/// first entry whose key has these bytes.
pub open spec fn spec_map_get(map: Seq<(Seq<char>, usize)>, ext: Seq<u8>) -> Option<usize> {
    spec_map_get_from(map, ext, 0)
}

/// `spec_map_get` over the entries from index `i` on.
pub open spec fn spec_map_get_from(map: Seq<(Seq<char>, usize)>, ext: Seq<u8>, i: int) -> Option<
    usize,
>
    decreases map.len() - i,
{
    if i < 0 || i >= map.len() {
        None
    } else if str_bytes(map[i].0) == ext {
        Some(map[i].1)
    } else {
        spec_map_get_from(map, ext, i + 1)
    }
}

/// The default alignment requirements added before writing, applied to a
/// table in order.
#[verifier::opaque]
pub open spec fn spec_default_alignments(map: Seq<(Seq<char>, usize)>, endian: Endian) -> Seq<
    (Seq<char>, usize),
> {
    let m1 = spec_map_insert(map, "ksky"@, 8);
    let m2 = spec_map_insert(m1, "ksky"@, 8);
    let m3 = spec_map_insert(m2, "bksky"@, 8);
    let m4 = spec_map_insert(m3, "gtx"@, 0x2000);
    let m5 = spec_map_insert(m4, "sharcb"@, 0x1000);
    let m6 = spec_map_insert(m5, "sharc"@, 0x1000);
    let m7 = spec_map_insert(m6, "baglmf"@, 0x80);
    spec_map_insert(
        m7,
        "bffnt"@,
        match endian {
            Endian::Big => 0x2000,
            Endian::Little => 0x1000,
        },
    )
}

/// The index of the last `.` in a name.
pub open spec fn spec_last_dot(name: Seq<u8>) -> Option<int>
    decreases name.len(),
{
    if name.len() == 0 {
        None
    } else if name.last() == 0x2E {
        Some(name.len() - 1)
    } else {
        spec_last_dot(name.drop_last())
    }
}

/// The extension of a file name: what follows its last `.`, or nothing.
pub open spec fn spec_ext(name: Seq<u8>) -> Seq<u8> {
    match spec_last_dot(name) {
        Some(i) => name.skip(i + 1),
        None => Seq::empty(),
    }
}

/// `"SARC"`.
pub open spec fn sarc_magic() -> Seq<u8> {
    seq![0x53u8, 0x41u8, 0x52u8, 0x43u8]
}

/// Whether data is a SARC archive, plain or Yaz0-compressed.
pub open spec fn spec_is_file_sarc(d: Seq<u8>) -> bool {
    d.len() >= 0x20 && (spec_magic_at(d, 0, sarc_magic()) || (spec_magic_at(
        d,
        0,
        seq![0x59u8, 0x61u8, 0x7Au8, 0x30u8],
    ) && spec_magic_at(d, 0x11, sarc_magic())))
}

/// The byte order of a new-style binary: its mark at 0xC, read as a
/// big-endian `FF FE` (big) or `FE FF` (little).
pub open spec fn spec_binary_bom(d: Seq<u8>) -> Option<Endian> {
    if d[0xC] == 0xFF && d[0xD] == 0xFE {
        Some(Endian::Big)
    } else if d[0xC] == 0xFE && d[0xD] == 0xFF {
        Some(Endian::Little)
    } else {
        None
    }
}

/// The alignment that a new-style binary asks for: `1 << d[0xE]` when it
/// is longer than 0x20 bytes, has a byte order mark at 0xC and its size
/// field at 0x1C equals its length; else 1. `None` where the shift
/// overflows.
pub open spec fn spec_new_binary_alignment(d: Seq<u8>) -> Option<nat> {
    if d.len() <= 0x20 {
        Some(1)
    } else {
        match spec_binary_bom(d) {
            None => Some(1),
            Some(e) => if spec_read_u32(d, 0x1C, e) != d.len() {
                Some(1)
            } else if d[0xE] < usize::BITS {
                Some(pow2(d[0xE] as nat))
            } else {
                None
            },
        }
    }
}

/// The alignment of a Wii U `FLIM` texture: the big-endian 16-bit value 8
/// bytes before the end, when `"FLIM"` stands 0x28 bytes before the end;
/// else 1.
pub open spec fn spec_bflim_alignment(d: Seq<u8>) -> nat {
    if d.len() <= 0x28 || !spec_magic_at(d, d.len() - 0x28, seq![0x46u8, 0x4Cu8, 0x49u8, 0x4Du8]) {
        1
    } else {
        spec_read_u16(d, d.len() - 8, Endian::Big) as nat
    }
}

/// One step of an alignment computation: the least common multiple, or
/// `None` once a step overflows.
pub open spec fn lcm_step(acc: Option<nat>, b: nat) -> Option<nat> {
    match acc {
        Some(a) => if spec_lcm(a, b) <= usize::MAX {
            Some(spec_lcm(a, b))
        } else {
            None
        },
        None => None,
    }
}

/// The data alignment of a file: the least common multiple of the minimum
/// alignment, the table's requirement for its extension, 0x2000 for a SARC
/// in legacy mode, what a new-style binary asks for, and, for big-endian
/// archives, what a `FLIM` texture asks for. `None` where a step overflows.
#[verifier::opaque]
pub open spec fn spec_file_alignment(
    min_alignment: usize,
    map: Seq<(Seq<char>, usize)>,
    legacy: bool,
    endian: Endian,
    name: Seq<u8>,
    data: Seq<u8>,
) -> Option<nat> {
    let a1 = match spec_map_get(map, spec_ext(name)) {
        Some(r) => lcm_step(Some(min_alignment as nat), r as nat),
        None => Some(min_alignment as nat),
    };
    let a2 = if legacy && spec_is_file_sarc(data) {
        lcm_step(a1, 0x2000)
    } else {
        a1
    };
    let a3 = match spec_new_binary_alignment(data) {
        Some(b) => lcm_step(a2, b),
        None => None,
    };
    match endian {
        Endian::Big => lcm_step(a3, spec_bflim_alignment(data)),
        Endian::Little => a3,
    }
}

/// Finds the last `.` in a name.
fn last_dot(name: &[u8]) -> (r: Option<usize>)
    ensures
        r matches Some(i) ==> spec_last_dot(name@) == Some(i as int) && i < name.len(),
        r is None ==> spec_last_dot(name@) is None,
{
    let mut i = name.len();
    assert(name@.take(i as int) =~= name@);
    while i > 0
        invariant
            i <= name@.len(),
            spec_last_dot(name@) == spec_last_dot(name@.take(i as int)),
        decreases i,
    {
        assert(name@.take(i as int).drop_last() =~= name@.take(i - 1));
        if name[i - 1] == 0x2E {
            return Some(i - 1);
        }
        i -= 1;
    }
    assert(name@.take(0) =~= Seq::<u8>::empty());
    None
}

/// Whether `a` equals the bytes of `b` from `start` on.
fn suffix_eq(a: &[u8], b: &[u8], start: usize) -> (r: bool)
    requires
        start <= b@.len(),
    ensures
        r == (a@ == b@.skip(start as int)),
{
    if a.len() != b.len() - start {
        return false;
    }
    let mut i: usize = 0;
    while i < a.len()
        invariant
            i <= a@.len(),
            start <= b@.len(),
            a@.len() + start == b.len(),
            forall|j: int| 0 <= j < i ==> a@[j] == b@[start + j],
        decreases a@.len() - i,
    {
        if a[i] != b[start + i] {
            assert(b@.skip(start as int)[i as int] != a@[i as int]);
            return false;
        }
        i += 1;
    }
    assert(a@ =~= b@.skip(start as int));
    true
}

/// The byte order mark of an archive.
pub open spec fn spec_bom_bytes(e: Endian) -> Seq<u8> {
    match e {
        Endian::Big => seq![0xFEu8, 0xFFu8],
        Endian::Little => seq![0xFFu8, 0xFEu8],
    }
}


/// The name bytes of file `k`.
pub open spec fn name_bytes(files: Seq<(Seq<char>, Seq<u8>)>, k: int) -> Seq<u8> {
    str_bytes(files[k].0)
}

/// The stream position at which the name of file `k` is written: the names
/// follow the SFNT header, each with a NUL, each padded to 4 bytes.
pub open spec fn spec_name_pos(files: Seq<(Seq<char>, Seq<u8>)>, k: int) -> int
    decreases k,
{
    if k <= 0 {
        0x28 + 16 * (files.len() as int)
    } else {
        spec_align_pos(spec_name_pos(files, k - 1) + name_bytes(files, k - 1).len() + 1, 4)
    }
}

/// The name table offset recorded for file `k`: the padded lengths of the
/// names before it.
pub open spec fn spec_name_ref(files: Seq<(Seq<char>, Seq<u8>)>, k: int) -> int
    decreases k,
{
    if k <= 0 {
        0
    } else {
        spec_name_ref(files, k - 1) + spec_align_pos(name_bytes(files, k - 1).len() + 1int, 4)
    }
}

/// Where the data of the files before `k` ends, relative to the data
/// section, as the entries record it.
pub open spec fn spec_rel_end(files: Seq<(Seq<char>, Seq<u8>)>, aligns: Seq<usize>, k: int) -> int
    decreases k,
{
    if k <= 0 {
        0
    } else {
        spec_align_pos(spec_rel_end(files, aligns, k - 1), aligns[k - 1] as int) + files[k
            - 1].1.len()
    }
}

/// Where the data of file `k` begins, relative to the data section, as its
/// entry records it.
pub open spec fn spec_rel_begin(files: Seq<(Seq<char>, Seq<u8>)>, aligns: Seq<usize>, k: int) -> int {
    spec_align_pos(spec_rel_end(files, aligns, k), aligns[k] as int)
}

/// The least common multiple of the first `k` alignments (1 for none).
pub open spec fn spec_required_alignment(aligns: Seq<usize>, k: int) -> nat
    decreases k,
{
    if k <= 0 {
        1
    } else {
        spec_lcm(spec_required_alignment(aligns, k - 1), aligns[k - 1] as nat)
    }
}

/// Where the data section begins: after the names, aligned to every file's
/// alignment.
pub open spec fn spec_data_start(files: Seq<(Seq<char>, Seq<u8>)>, aligns: Seq<usize>) -> int {
    spec_align_pos(
        spec_name_pos(files, files.len() as int),
        spec_required_alignment(aligns, files.len() as int) as int,
    )
}

/// The stream position after the data of the files before `k`.
pub open spec fn spec_abs_end(files: Seq<(Seq<char>, Seq<u8>)>, aligns: Seq<usize>, k: int) -> int
    decreases k,
{
    if k <= 0 {
        spec_data_start(files, aligns)
    } else {
        spec_align_pos(spec_abs_end(files, aligns, k - 1), aligns[k - 1] as int) + files[k
            - 1].1.len()
    }
}

/// The stream position at which the data of file `k` is written.
pub open spec fn spec_abs_begin(files: Seq<(Seq<char>, Seq<u8>)>, aligns: Seq<usize>, k: int) -> int {
    spec_align_pos(spec_abs_end(files, aligns, k), aligns[k] as int)
}

/// File `k`'s alignment, name length and data length fit in 32 bits.
pub open spec fn spec_file_fits(files: Seq<(Seq<char>, Seq<u8>)>, aligns: Seq<usize>, k: int) -> bool {
    &&& aligns[k] <= u32::MAX
    &&& name_bytes(files, k).len() <= u32::MAX
    &&& files[k].1.len() <= u32::MAX
}

/// The positions after the first `k` files fit in 32 bits.
pub open spec fn spec_prefix_fits(files: Seq<(Seq<char>, Seq<u8>)>, aligns: Seq<usize>, k: int) -> bool {
    &&& spec_name_pos(files, k) <= u32::MAX
    &&& spec_name_ref(files, k) <= u32::MAX
    &&& spec_rel_end(files, aligns, k) <= u32::MAX
    &&& spec_abs_end(files, aligns, k) <= u32::MAX
    &&& spec_required_alignment(aligns, k) <= u32::MAX
}

/// Every position of the layout fits the 32-bit fields of the format.
pub open spec fn spec_layout_fits(files: Seq<(Seq<char>, Seq<u8>)>, aligns: Seq<usize>) -> bool {
    &&& aligns.len() == files.len()
    &&& forall|k: int| 0 <= k < files.len() ==> #[trigger] spec_file_fits(files, aligns, k)
    &&& forall|k: int| 0 <= k <= files.len() ==> #[trigger] spec_prefix_fits(files, aligns, k)
}

/// The SFAT header.
pub open spec fn spec_fat_header(num_files: u16, e: Endian) -> Seq<u8> {
    seq![0x53u8, 0x46u8, 0x41u8, 0x54u8] + spec_u16_bytes(0x0C, e) + spec_u16_bytes(num_files, e)
        + spec_u32_bytes(0x65, e)
}

/// The SFNT header.
pub open spec fn spec_fnt_header(e: Endian) -> Seq<u8> {
    seq![0x53u8, 0x46u8, 0x4Eu8, 0x54u8] + spec_u16_bytes(8, e) + spec_u16_bytes(0, e)
}

/// The archive header.
pub open spec fn spec_sarc_header(file_size: u32, data_offset: u32, e: Endian) -> Seq<u8> {
    sarc_magic() + spec_u16_bytes(0x14, e) + spec_bom_bytes(e) + spec_u32_bytes(file_size, e)
        + spec_u32_bytes(data_offset, e) + spec_u16_bytes(0x100, e) + spec_u16_bytes(0, e)
}

/// An SFAT entry: name hash, name reference (flag 1 in the top byte, then
/// the name table offset in 4-byte units), data begin and data end.
pub open spec fn spec_entry_fields(hash: u32, name_ref: u32, begin: u32, end: u32, e: Endian) -> Seq<
    u8,
> {
    spec_u32_bytes(hash, e) + spec_u32_bytes(0x1000000u32 | (name_ref / 4), e) + spec_u32_bytes(
        begin,
        e,
    ) + spec_u32_bytes(end, e)
}

/// The SFAT entry of file `k`.
pub open spec fn spec_entry_bytes(
    files: Seq<(Seq<char>, Seq<u8>)>,
    aligns: Seq<usize>,
    k: int,
    e: Endian,
) -> Seq<u8> {
    let begin = spec_rel_begin(files, aligns, k);
    spec_entry_fields(
        file_hash(files[k].0),
        spec_name_ref(files, k) as u32,
        begin as u32,
        (begin + files[k].1.len()) as u32,
        e,
    )
}

/// Write `m` of an archive, in the order the writer makes them: the SFAT
/// header, the entries, the SFNT header, each name and its NUL, each file's
/// data, and last the archive header.
pub open spec fn spec_write_op(
    files: Seq<(Seq<char>, Seq<u8>)>,
    aligns: Seq<usize>,
    e: Endian,
    m: int,
) -> (int, Seq<u8>) {
    let n = files.len() as int;
    if m == 0 {
        (0x14, spec_fat_header(n as u16, e))
    } else if m <= n {
        (0x20 + 16 * (m - 1), spec_entry_bytes(files, aligns, m - 1, e))
    } else if m == n + 1 {
        (0x20 + 16 * n, spec_fnt_header(e))
    } else if m < 3 * n + 2 {
        let j = m - n - 2;
        let k = j / 2;
        if j % 2 == 0 {
            (spec_name_pos(files, k), name_bytes(files, k))
        } else {
            (spec_name_pos(files, k) + name_bytes(files, k).len(), seq![0u8])
        }
    } else if m < 4 * n + 2 {
        let k = m - 3 * n - 2;
        (spec_abs_begin(files, aligns, k), files[k].1)
    } else {
        (
            0,
            spec_sarc_header(
                spec_abs_end(files, aligns, n) as u32,
                spec_data_start(files, aligns) as u32,
                e,
            ),
        )
    }
}

/// The data of every file lies inside the archive that is written. The
/// writer leaves no padding after the last bytes it writes, so this fails
/// only where the last files are empty and the aligned start of their data
/// lies past those bytes.
pub open spec fn spec_data_in_archive(files: Seq<(Seq<char>, Seq<u8>)>, aligns: Seq<usize>, e: Endian) -> bool {
    files.len() == 0 || spec_abs_end(files, aligns, files.len() as int) <= spec_sarc_binary(
        files,
        aligns,
        e,
    ).len()
}

/// All writes of an archive.
pub open spec fn spec_write_ops(files: Seq<(Seq<char>, Seq<u8>)>, aligns: Seq<usize>, e: Endian) -> Seq<
    (int, Seq<u8>),
> {
    Seq::new(4 * files.len() + 3, |m: int| spec_write_op(files, aligns, e, m))
}

/// The archive bytes: what its writes leave in an empty buffer.
#[verifier::opaque]
pub open spec fn spec_sarc_binary(files: Seq<(Seq<char>, Seq<u8>)>, aligns: Seq<usize>, e: Endian) -> Seq<
    u8,
> {
    spec_apply_writes(spec_write_ops(files, aligns, e))
}

/// Applying the first `m + 1` writes is applying the first `m`, then write `m`.
proof fn lemma_apply_step(ops: Seq<(int, Seq<u8>)>, m: int)
    requires
        0 <= m < ops.len(),
    ensures
        spec_apply_writes(ops.take(m + 1)) == spec_write_at(
            spec_apply_writes(ops.take(m)),
            ops[m].0,
            ops[m].1,
        ),
{
    assert(ops.take(m + 1).drop_last() =~= ops.take(m));
}

fn fat_header(num_files: u16, e: Endian) -> (r: Vec<u8>)
    ensures
        r@ == spec_fat_header(num_files, e),
{
    let mut v: Vec<u8> = Vec::new();
    v.push(0x53);
    v.push(0x46);
    v.push(0x41);
    v.push(0x54);
    push_u16(&mut v, 0x0C, e);
    push_u16(&mut v, num_files, e);
    push_u32(&mut v, 0x65, e);
    assert(v@ =~= spec_fat_header(num_files, e));
    v
}

fn fnt_header(e: Endian) -> (r: Vec<u8>)
    ensures
        r@ == spec_fnt_header(e),
{
    let mut v: Vec<u8> = Vec::new();
    v.push(0x53);
    v.push(0x46);
    v.push(0x4E);
    v.push(0x54);
    push_u16(&mut v, 8, e);
    push_u16(&mut v, 0, e);
    assert(v@ =~= spec_fnt_header(e));
    v
}

fn sarc_header(file_size: u32, data_offset: u32, e: Endian) -> (r: Vec<u8>)
    ensures
        r@ == spec_sarc_header(file_size, data_offset, e),
{
    let mut v: Vec<u8> = Vec::new();
    v.push(0x53);
    v.push(0x41);
    v.push(0x52);
    v.push(0x43);
    push_u16(&mut v, 0x14, e);
    match e {
        Endian::Big => {
            v.push(0xFE);
            v.push(0xFF);
        },
        Endian::Little => {
            v.push(0xFF);
            v.push(0xFE);
        },
    }
    push_u32(&mut v, file_size, e);
    push_u32(&mut v, data_offset, e);
    push_u16(&mut v, 0x100, e);
    push_u16(&mut v, 0, e);
    assert(v@ =~= spec_sarc_header(file_size, data_offset, e));
    v
}

fn entry_fields(hash: u32, name_ref: u32, begin: u32, end: u32, e: Endian) -> (r: Vec<u8>)
    ensures
        r@ == spec_entry_fields(hash, name_ref, begin, end, e),
{
    let mut v: Vec<u8> = Vec::new();
    push_u32(&mut v, hash, e);
    push_u32(&mut v, 0x1000000u32 | (name_ref / 4), e);
    push_u32(&mut v, begin, e);
    push_u32(&mut v, end, e);
    assert(v@ =~= spec_entry_fields(hash, name_ref, begin, end, e));
    v
}


/// Writes the SFAT entries.
fn write_entries(
    buf: &mut Vec<u8>,
    files: &Vec<(FileName, Vec<u8>)>,
    aligns: &Vec<usize>,
    e: Endian,
)
    requires
        spec_layout_fits(files_view(files@), aligns@),
        old(buf)@ == spec_apply_writes(spec_write_ops(files_view(files@), aligns@, e).take(1)),
    ensures
        final(buf)@ == spec_apply_writes(
            spec_write_ops(files_view(files@), aligns@, e).take(files@.len() + 1int),
        ),
{
    let ghost fv = files_view(files@);
    let ghost ops = spec_write_ops(fv, aligns@, e);
    let n = files.len();
    let mut rel_string: u32 = 0;
    let mut rel_data: u64 = 0;
    let mut k: usize = 0;
    while k < n
        invariant
            n == fv.len(),
            n == files@.len(),
            fv == files_view(files@),
            k <= n,
            spec_layout_fits(fv, aligns@),
            ops == spec_write_ops(fv, aligns@, e),
            rel_string == spec_name_ref(fv, k as int),
            rel_data == spec_rel_end(fv, aligns@, k as int),
            buf@ == spec_apply_writes(ops.take(k + 1)),
        decreases n - k,
    {
        proof {
            assert(spec_file_fits(fv, aligns@, k as int));
            assert(spec_prefix_fits(fv, aligns@, k as int));
            assert(spec_prefix_fits(fv, aligns@, k + 1));
            assert(spec_prefix_fits(fv, aligns@, 0));
        }
        let name = files[k].0.as_str();
        let data = files[k].1.as_slice();
        let a = aligns[k];
        let off = align_pos(rel_data, a as u64);
        proof {
            assert(fv[k as int] == (files@[k as int].0@, files@[k as int].1@));
            assert(spec_rel_end(fv, aligns@, k + 1) == off + data@.len());
        }
        let end = off + data.len() as u64;
        let h = files[k].0.hash();
        let entry = entry_fields(h, rel_string, off as u32, end as u32, e);
        proof {
            lemma_apply_step(ops, k + 1);
            assert(ops[k + 1] == (0x20 + 16 * (k as int), entry@));
        }
        write_at(buf, 0x20 + 16 * k, entry.as_slice());
        rel_data = end;
        let padded = align_pos(name.len() as u64 + 1, 4);
        proof {
            assert(spec_name_ref(fv, k + 1) == rel_string + padded);
        }
        rel_string = rel_string + padded as u32;
        k += 1;
    }
}


/// Writes the names, each with its NUL; returns where the names end.
fn write_names(
    buf: &mut Vec<u8>,
    files: &Vec<(FileName, Vec<u8>)>,
    aligns: &Vec<usize>,
    e: Endian,
) -> (r: u64)
    requires
        spec_layout_fits(files_view(files@), aligns@),
        old(buf)@ == spec_apply_writes(
            spec_write_ops(files_view(files@), aligns@, e).take(files@.len() + 2int),
        ),
    ensures
        final(buf)@ == spec_apply_writes(
            spec_write_ops(files_view(files@), aligns@, e).take(3 * files@.len() + 2int),
        ),
        r == spec_name_pos(files_view(files@), files@.len() as int),
{
    let ghost fv = files_view(files@);
    let ghost ops = spec_write_ops(fv, aligns@, e);
    let n = files.len();
    proof {
        assert(spec_prefix_fits(fv, aligns@, 0));
    }
    let mut pos: u64 = 0x28 + 16 * (n as u64);
    let mut k: usize = 0;
    while k < n
        invariant
            n == fv.len(),
            n == files@.len(),
            fv == files_view(files@),
            k <= n,
            spec_layout_fits(fv, aligns@),
            ops == spec_write_ops(fv, aligns@, e),
            pos == spec_name_pos(fv, k as int),
            buf@ == spec_apply_writes(ops.take(n + 2 + 2 * k)),
        decreases n - k,
    {
        let name = files[k].0.as_str().as_bytes();
        proof {
            assert(fv[k as int] == (files@[k as int].0@, files@[k as int].1@));
            assert(name@ == name_bytes(fv, k as int));
            assert(spec_file_fits(fv, aligns@, k as int));
            assert(spec_prefix_fits(fv, aligns@, k as int));
            assert(spec_prefix_fits(fv, aligns@, k + 1));
            lemma_align_pos_bounds(pos + name@.len() + 1, 4);
            lemma_apply_step(ops, n + 2 + 2 * k);
            assert(ops[n + 2 + 2 * k] == (pos as int, name@));
        }
        write_at(buf, pos as usize, name);
        let nul: [u8; 1] = [0];
        proof {
            assert(nul@ =~= seq![0u8]);
            lemma_apply_step(ops, n + 3 + 2 * k);
            assert(ops[n + 3 + 2 * k] == (pos + name@.len(), nul@));
        }
        write_at(buf, pos as usize + name.len(), nul.as_slice());
        pos = align_pos(pos + name.len() as u64 + 1, 4);
        k += 1;
    }
    pos
}

/// The least common multiple of all alignments.
fn required_alignment(aligns: &Vec<usize>) -> (r: usize)
    requires
        forall|k: int| 0 <= k <= aligns@.len() ==> #[trigger] spec_required_alignment(aligns@, k) <= u32::MAX,
    ensures
        r == spec_required_alignment(aligns@, aligns@.len() as int),
{
    let mut r: usize = 1;
    let mut k: usize = 0;
    while k < aligns.len()
        invariant
            k <= aligns@.len(),
            r == spec_required_alignment(aligns@, k as int),
            forall|j: int| 0 <= j <= aligns@.len() ==> #[trigger] spec_required_alignment(aligns@, j) <= u32::MAX,
        decreases aligns@.len() - k,
    {
        assert(spec_required_alignment(aligns@, k + 1) <= u32::MAX);
        r = lcm_usize(r, aligns[k]);
        k += 1;
    }
    r
}

/// Writes the file data after the names; returns where the data section
/// begins and where the data ends.
fn write_data(
    buf: &mut Vec<u8>,
    files: &Vec<(FileName, Vec<u8>)>,
    aligns: &Vec<usize>,
    e: Endian,
    names_end: u64,
) -> (r: (u64, u64))
    requires
        spec_layout_fits(files_view(files@), aligns@),
        names_end == spec_name_pos(files_view(files@), files@.len() as int),
        old(buf)@ == spec_apply_writes(
            spec_write_ops(files_view(files@), aligns@, e).take(3 * files@.len() + 2int),
        ),
    ensures
        final(buf)@ == spec_apply_writes(
            spec_write_ops(files_view(files@), aligns@, e).take(4 * files@.len() + 2int),
        ),
        r.0 == spec_data_start(files_view(files@), aligns@),
        r.1 == spec_abs_end(files_view(files@), aligns@, files@.len() as int),
{
    let ghost fv = files_view(files@);
    let ghost ops = spec_write_ops(fv, aligns@, e);
    let n = files.len();
    proof {
        assert(spec_prefix_fits(fv, aligns@, n as int));
        assert(spec_prefix_fits(fv, aligns@, 0));
        assert forall|k: int| 0 <= k <= aligns@.len() implies #[trigger] spec_required_alignment(aligns@, k) <= u32::MAX by {
            assert(spec_prefix_fits(fv, aligns@, k));
        }
    }
    let req = required_alignment(aligns);
    let start = align_pos(names_end, req as u64);
    let mut pos: u64 = start;
    let mut k: usize = 0;
    while k < n
        invariant
            n == fv.len(),
            n == files@.len(),
            fv == files_view(files@),
            k <= n,
            spec_layout_fits(fv, aligns@),
            ops == spec_write_ops(fv, aligns@, e),
            start == spec_data_start(fv, aligns@),
            pos == spec_abs_end(fv, aligns@, k as int),
            buf@ == spec_apply_writes(ops.take(3 * n + 2 + k)),
        decreases n - k,
    {
        let data = files[k].1.as_slice();
        proof {
            assert(fv[k as int] == (files@[k as int].0@, files@[k as int].1@));
            assert(spec_file_fits(fv, aligns@, k as int));
            assert(spec_prefix_fits(fv, aligns@, k as int));
            assert(spec_prefix_fits(fv, aligns@, k + 1));
        }
        let p = align_pos(pos, aligns[k] as u64);
        proof {
            lemma_apply_step(ops, 3 * n + 2 + k);
            assert(ops[3 * n + 2 + k] == (p as int, data@));
        }
        write_at(buf, p as usize, data);
        pos = p + data.len() as u64;
        k += 1;
    }
    (start, pos)
}

/// The named files among the first `k` entries of an archive, in order:
/// each name (as characters) with its data.
pub open spec fn spec_iter_files(s: &Sarc, k: int) -> Seq<(Seq<char>, Seq<u8>)>
    decreases k,
{
    if k <= 0 {
        Seq::empty()
    } else {
        let prev = spec_iter_files(s, k - 1);
        match s.spec_file_name(k - 1) {
            Some(b) => prev.push((vstd::utf8::decode_utf8(b), s.spec_file_data(k - 1))),
            None => prev,
        }
    }
}

/// Iterating over the archive yields exactly the first `m` entries: their
/// names can be read, and the name of entry `m`, if there is one, cannot.
pub open spec fn spec_readable_prefix(s: &Sarc, m: int) -> bool {
    &&& 0 <= m <= s.spec_num_files()
    &&& forall|j: int| 0 <= j < m ==> #[trigger] s.spec_file_ok(j)
    &&& m < s.spec_num_files() ==> !s.spec_file_ok(m)
}

/// The files that a writer takes from an archive: the named files that
/// iterating yields, added one after another.
pub open spec fn spec_from_sarc_files(s: &Sarc) -> Seq<(Seq<char>, Seq<u8>)> {
    spec_insert_files(
        Seq::empty(),
        spec_iter_files(s, choose|m: int| spec_readable_prefix(s, m)),
    )
}


/// Ordered files have a place for every hash: the first file, from `k` on,
/// whose hash is not below it.
proof fn lemma_insert_position_from(files: Seq<(Seq<char>, Seq<u8>)>, h: u32, k: int)
    requires
        files_sorted(files),
        0 <= k <= files.len(),
        forall|j: int| 0 <= j < k ==> file_hash(files[j].0) < h,
    ensures
        is_insert_position(files, h, insert_position(files, h)),
    decreases files.len() - k,
{
    if k < files.len() && file_hash(files[k].0) < h {
        lemma_insert_position_from(files, h, k + 1);
    } else {
        assert forall|j: int| k <= j < files.len() implies file_hash(files[j].0) >= h by {
            if j > k {
                assert(file_hash(files[k].0) < file_hash(files[j].0));
            }
        }
        assert(is_insert_position(files, h, k));
    }
}

/// Adding a file to ordered files keeps them ordered by hash; afterwards
/// exactly the file with the new name's hash holds the new data, and every
/// file with another hash is kept.
pub proof fn added_file_is_found(files: Seq<(Seq<char>, Seq<u8>)>, name: Seq<char>, data: Seq<u8>)
    requires
        files_sorted(files),
    ensures
        ({
            let r = spec_insert_file(files, name, data);
            let h = file_hash(name);
            &&& files_sorted(r)
            &&& exists|k: int| 0 <= k < r.len() && file_hash(r[k].0) == h && r[k].1 == data
            &&& forall|k: int| 0 <= k < r.len() && file_hash(r[k].0) == h ==> r[k].1 == data
            &&& forall|i: int|
                0 <= i < files.len() && file_hash(files[i].0) != h ==> exists|k: int|
                    0 <= k < r.len() && r[k] == files[i]
        }),
{
    let h = file_hash(name);
    lemma_insert_position_from(files, h, 0);
    let p = insert_position(files, h);
    let r = spec_insert_file(files, name, data);
    if p < files.len() && file_hash(files[p].0) == h {
        assert(r[p].1 == data);
        assert forall|k: int| 0 <= k < r.len() && file_hash(r[k].0) == h implies r[k].1 == data by {
            if k != p {
                assert(r[k] == files[k]);
                if k < p {
                    assert(file_hash(files[k].0) < h);
                } else {
                    assert(file_hash(files[p].0) < file_hash(files[k].0));
                }
            }
        }
        assert forall|i: int| 0 <= i < files.len() && file_hash(files[i].0) != h implies exists|
            k: int,
        | 0 <= k < r.len() && r[k] == files[i] by {
            assert(r[i] == files[i]);
        }
    } else {
        assert(r[p] == (name, data));
        assert forall|i: int, j: int| 0 <= i < j < r.len() implies file_hash(r[i].0) < file_hash(
            r[j].0,
        ) by {
            if j == p {
                assert(r[i] == files[i]);
            } else if i == p {
                assert(r[j] == files[j - 1]);
                assert(file_hash(files[j - 1].0) >= h);
            } else if i < p && j > p {
                assert(r[i] == files[i] && r[j] == files[j - 1]);
            } else if i > p {
                assert(r[i] == files[i - 1] && r[j] == files[j - 1]);
            } else {
                assert(r[i] == files[i] && r[j] == files[j]);
            }
        }
        assert forall|k: int| 0 <= k < r.len() && file_hash(r[k].0) == h implies r[k].1 == data by {
            if k < p {
                assert(r[k] == files[k]);
            } else if k > p {
                assert(r[k] == files[k - 1]);
                if k - 1 > p {
                    assert(file_hash(files[p].0) < file_hash(files[k - 1].0));
                }
            }
        }
        assert forall|i: int| 0 <= i < files.len() && file_hash(files[i].0) != h implies exists|
            k: int,
        | 0 <= k < r.len() && r[k] == files[i] by {
            if i < p {
                assert(r[i] == files[i]);
            } else {
                assert(r[i + 1] == files[i]);
            }
        }
    }
}

/// The first entry from `i` on whose key has these bytes.
proof fn lemma_map_get_from_at(map: Seq<(Seq<char>, usize)>, ext: Seq<u8>, i: int, k: int)
    requires
        0 <= i <= k < map.len(),
        str_bytes(map[k].0) == ext,
        forall|j: int| i <= j < k ==> str_bytes(map[j].0) != ext,
    ensures
        spec_map_get_from(map, ext, i) == Some(map[k].1),
    decreases k - i,
{
    if i < k {
        lemma_map_get_from_at(map, ext, i + 1, k);
    }
}

/// Setting an alignment requirement for an extension and then looking the
/// extension up gives the new requirement.
pub proof fn added_alignment_is_found(map: Seq<(Seq<char>, usize)>, key: Seq<char>, v: usize)
    requires
        map_keys_unique(map),
    ensures
        map_keys_unique(spec_map_insert(map, key, v)),
        spec_map_get(spec_map_insert(map, key, v), str_bytes(key)) == Some(v),
{
    let m2 = spec_map_insert(map, key, v);
    let kb = str_bytes(key);
    if exists|i: int| 0 <= i < map.len() && map[i].0 == key {
        let i = choose|i: int| 0 <= i < map.len() && map[i].0 == key;
        assert forall|j: int| 0 <= j < i implies str_bytes(m2[j].0) != kb by {
            if str_bytes(m2[j].0) == kb {
                vstd::utf8::encode_utf8_decode_utf8(m2[j].0);
                vstd::utf8::encode_utf8_decode_utf8(key);
            }
        }
        lemma_map_get_from_at(m2, kb, 0, i);
        assert forall|a: int, b: int| 0 <= a < b < m2.len() implies m2[a].0 != m2[b].0 by {
            assert(map[a].0 != map[b].0);
        }
    } else {
        let n = map.len() as int;
        assert forall|j: int| 0 <= j < n implies str_bytes(m2[j].0) != kb by {
            if str_bytes(m2[j].0) == kb {
                vstd::utf8::encode_utf8_decode_utf8(m2[j].0);
                vstd::utf8::encode_utf8_decode_utf8(key);
                assert(map[j].0 == key);
            }
        }
        lemma_map_get_from_at(m2, kb, 0, n);
        assert forall|a: int, b: int| 0 <= a < b < m2.len() implies m2[a].0 != m2[b].0 by {
            if b == n {
                assert(map[a].0 != key);
            }
        }
    }
}
/// A simple SARC archive writer
#[derive(Debug)]
pub struct SarcWriter {
    endian: Endian,
    legacy: bool,
    hash_multiplier: u32,
    min_alignment: usize,
    alignment_map: Vec<(String, usize)>,
    files: Vec<(FileName, Vec<u8>)>,
}

impl SarcWriter {
    #[verifier::type_invariant]
    spec fn wf(self) -> bool {
        &&& self.hash_multiplier == 0x65
        &&& spec_is_valid_alignment(self.min_alignment)
        &&& files_sorted(files_view(self.files@))
        &&& map_keys_unique(self.spec_alignment_map())
        &&& forall|i: int|
            0 <= i < self.alignment_map@.len() ==> spec_is_valid_alignment(
                #[trigger] self.alignment_map@[i].1,
            )
    }

    /// The files to be written, ordered by name hash.
    pub closed spec fn spec_files(&self) -> Seq<(Seq<char>, Seq<u8>)> {
        files_view(self.files@)
    }

    /// The alignment requirements by file extension.
    pub closed spec fn spec_alignment_map(&self) -> Seq<(Seq<char>, usize)> {
        self.alignment_map@.map_values(|e: (String, usize)| (e.0@, e.1))
    }

    /// The byte order of the archive.
    pub closed spec fn spec_endian(&self) -> Endian {
        self.endian
    }

    /// Whether legacy alignment rules apply.
    pub closed spec fn spec_legacy(&self) -> bool {
        self.legacy
    }

    /// The minimum data alignment.
    pub closed spec fn spec_min_alignment(&self) -> usize {
        self.min_alignment
    }

    /// A simple SARC archive writer
    pub fn new(endian: Endian) -> (r: SarcWriter)
        ensures
            r.spec_endian() == endian,
            !r.spec_legacy(),
            r.spec_min_alignment() == 4,
            r.spec_files() == Seq::<(Seq<char>, Seq<u8>)>::empty(),
            r.spec_alignment_map() == Seq::<(Seq<char>, usize)>::empty(),
    {
        assert(spec_is_valid_alignment(4usize)) by (bit_vector);
        let r = SarcWriter {
            endian,
            legacy: false,
            hash_multiplier: HASH_MULTIPLIER,
            min_alignment: 4,
            alignment_map: Vec::new(),
            files: Vec::new(),
        };
        assert(r.spec_files() =~= Seq::<(Seq<char>, Seq<u8>)>::empty());
        assert(r.spec_alignment_map() =~= Seq::<(Seq<char>, usize)>::empty());
        r
    }

    /// The files to be written, ordered by name hash.
    pub fn files(&self) -> (r: &Vec<(FileName, Vec<u8>)>)
        ensures
            files_view(r@) == self.spec_files(),
    {
        &self.files
    }

    /// Add a file to the archive. A file whose name has the same hash keeps
    /// its name and takes the new data.
    pub fn add_file(&mut self, name: &str, data: Vec<u8>)
        ensures
            final(self).spec_files() == spec_insert_file(old(self).spec_files(), name@, data@),
            final(self).spec_endian() == old(self).spec_endian(),
            final(self).spec_legacy() == old(self).spec_legacy(),
            final(self).spec_min_alignment() == old(self).spec_min_alignment(),
            final(self).spec_alignment_map() == old(self).spec_alignment_map(),
    {
        proof {
            use_type_invariant(&*self);
        }
        let h = hash_name(HASH_MULTIPLIER, name);
        let ghost old_files = self.spec_files();
        let n = self.files.len();
        let mut k: usize = 0;
        let mut found = false;
        while k < n && !found
            invariant
                n == self.files@.len(),
                old_files == files_view(self.files@),
                k <= n,
                h == file_hash(name@),
                forall|j: int| 0 <= j < k ==> file_hash(old_files[j].0) < h,
                found ==> k < n && file_hash(old_files[k as int].0) >= h,
            decreases n - k, (if found { 0nat } else { 1nat }),
        {
            if self.files[k].0.hash() >= h {
                found = true;
            } else {
                k += 1;
            }
        }
        proof {
            assert(files_sorted(old_files));
            assert forall|j: int| k <= j < n implies file_hash(old_files[j].0) >= h by {
                if j > k {
                    assert(file_hash(old_files[k as int].0) < file_hash(old_files[j].0));
                }
            }
            assert(is_insert_position(old_files, h, k as int));
            let p = insert_position(old_files, h);
            if p < k {
                assert(file_hash(old_files[p].0) < h);
            }
            if p > k {
                assert(file_hash(old_files[k as int].0) < h);
            }
            assert(p == k);
        }
        let mut files: Vec<(FileName, Vec<u8>)> = Vec::new();
        std::mem::swap(&mut files, &mut self.files);
        if k < n && files[k].0.hash() == h {
            let entry = files.remove(k);
            files.insert(k, (entry.0, data));
            proof {
                assert(files_view(files@) =~= old_files.update(k as int, (old_files[k as int].0, data@)));
            }
            self.files = files;
        } else {
            files.insert(k, (FileName::new(name), data));
            proof {
                let nf = old_files.insert(k as int, (name@, data@));
                assert(files_view(files@) =~= nf);
                assert forall|i: int, j: int| 0 <= i < j < nf.len() implies file_hash(nf[i].0)
                    < file_hash(nf[j].0) by {
                    if j == k {
                        assert(file_hash(nf[i].0) == file_hash(old_files[i].0));
                    } else if i == k {
                        assert(nf[j] == old_files[j - 1]);
                        if j - 1 > k {
                            assert(file_hash(old_files[k as int].0) < file_hash(old_files[j - 1].0));
                        }
                    } else if i < k && j > k {
                        assert(nf[j] == old_files[j - 1]);
                    } else if i > k {
                        assert(nf[j] == old_files[j - 1]);
                        assert(nf[i] == old_files[i - 1]);
                    }
                }
            }
            self.files = files;
        }
    }

    /// Builder-style method to add a file to the archive.
    pub fn with_file(self, name: &str, data: Vec<u8>) -> (r: Self)
        ensures
            r.spec_files() == spec_insert_file(self.spec_files(), name@, data@),
            r.spec_endian() == self.spec_endian(),
            r.spec_legacy() == self.spec_legacy(),
            r.spec_min_alignment() == self.spec_min_alignment(),
            r.spec_alignment_map() == self.spec_alignment_map(),
    {
        let mut w = self;
        w.add_file(name, data);
        w
    }

    /// Add files to the archive, in order.
    pub fn add_files(&mut self, files: Vec<(String, Vec<u8>)>)
        ensures
            final(self).spec_files() == spec_insert_files(
                old(self).spec_files(),
                files@.map_values(|f: (String, Vec<u8>)| (f.0@, f.1@)),
            ),
            final(self).spec_endian() == old(self).spec_endian(),
            final(self).spec_legacy() == old(self).spec_legacy(),
            final(self).spec_min_alignment() == old(self).spec_min_alignment(),
            final(self).spec_alignment_map() == old(self).spec_alignment_map(),
    {
        let ghost start = self.spec_files();
        let ghost items = files@;
        let ghost views = files@.map_values(|f: (String, Vec<u8>)| (f.0@, f.1@));
        let mut files = files;
        let n0 = files.len();
        let ghost n = files@.len();
        let mut i: usize = 0;
        assert(views.take(0) =~= Seq::<(Seq<char>, Seq<u8>)>::empty());
        assert(items.skip(0) =~= items);
        while files.len() > 0
            invariant
                n == items.len(),
                n == n0,
                i <= n,
                files@ == items.skip(i as int),
                views == items.map_values(|f: (String, Vec<u8>)| (f.0@, f.1@)),
                self.spec_files() == spec_insert_files(start, views.take(i as int)),
                self.spec_endian() == old(self).spec_endian(),
                self.spec_legacy() == old(self).spec_legacy(),
                self.spec_min_alignment() == old(self).spec_min_alignment(),
                self.spec_alignment_map() == old(self).spec_alignment_map(),
            decreases files@.len(),
        {
            let (name, data) = files.remove(0);
            proof {
                assert(views.take(i + 1).drop_last() =~= views.take(i as int));
                assert(views.take(i + 1).last() == views[i as int]);
                assert(items.skip(i + 1) =~= items.skip(i as int).drop_first());
            }
            self.add_file(name.as_str(), data);
            i += 1;
        }
        assert(views.take(n as int) =~= views);
    }

    /// The writer with files added, one after another.
    pub fn with_files(self, files: Vec<(String, Vec<u8>)>) -> (r: Self)
        ensures
            r.spec_files() == spec_insert_files(
                self.spec_files(),
                files@.map_values(|f: (String, Vec<u8>)| (f.0@, f.1@)),
            ),
            r.spec_endian() == self.spec_endian(),
            r.spec_legacy() == self.spec_legacy(),
            r.spec_min_alignment() == self.spec_min_alignment(),
            r.spec_alignment_map() == self.spec_alignment_map(),
    {
        let mut w = self;
        w.add_files(files);
        w
    }

    /// Add or modify a data alignment requirement for a file type. Set the
    /// alignment to 1 to revert. Fails unless the alignment is a power of
    /// two.
    pub fn add_alignment_requirement(&mut self, ext: String, alignment: usize) -> (r: Result<()>)
        ensures
            r is Ok <==> spec_is_valid_alignment(alignment),
            r matches Err(e) ==> e == Error::InvalidData("Invalid alignment requirement"),
            final(self).spec_alignment_map() == if spec_is_valid_alignment(alignment) {
                spec_map_insert(old(self).spec_alignment_map(), ext@, alignment)
            } else {
                old(self).spec_alignment_map()
            },
            final(self).spec_files() == old(self).spec_files(),
            final(self).spec_endian() == old(self).spec_endian(),
            final(self).spec_legacy() == old(self).spec_legacy(),
            final(self).spec_min_alignment() == old(self).spec_min_alignment(),
    {
        proof {
            use_type_invariant(&*self);
        }
        if !is_valid_alignment(alignment) {
            return Err(Error::InvalidData("Invalid alignment requirement"));
        }
        let mut map: Vec<(String, usize)> = Vec::new();
        std::mem::swap(&mut map, &mut self.alignment_map);
        let ghost old_map = map@.map_values(|e: (String, usize)| (e.0@, e.1));
        let n = map.len();
        let mut i: usize = 0;
        let mut found = false;
        while i < n && !found
            invariant
                n == map@.len(),
                i <= n,
                old_map == map@.map_values(|e: (String, usize)| (e.0@, e.1)),
                forall|j: int| 0 <= j < i ==> #[trigger] old_map[j].0 != ext@,
                found ==> i < n && old_map[i as int].0 == ext@,
            decreases n - i, (if found { 0nat } else { 1nat }),
        {
            if bytes_eq(map[i].0.as_str().as_bytes(), ext.as_str().as_bytes()) {
                proof {
                    vstd::utf8::encode_utf8_decode_utf8(map@[i as int].0@);
                    vstd::utf8::encode_utf8_decode_utf8(ext@);
                }
                found = true;
            } else {
                i += 1;
            }
        }
        let ghost key = ext@;
        if found {
            map.set(i, (ext, alignment));
            proof {
                assert(exists|j: int| 0 <= j < old_map.len() && old_map[j].0 == key);
                let c = choose|j: int| 0 <= j < old_map.len() && old_map[j].0 == key;
                assert(c == i);
                assert(map@.map_values(|e: (String, usize)| (e.0@, e.1)) =~= spec_map_insert(
                    old_map,
                    key,
                    alignment,
                ));
            }
        } else {
            map.push((ext, alignment));
            proof {
                assert(!exists|j: int| 0 <= j < old_map.len() && old_map[j].0 == key);
                assert(map@.map_values(|e: (String, usize)| (e.0@, e.1)) =~= spec_map_insert(
                    old_map,
                    key,
                    alignment,
                ));
            }
        }
        self.alignment_map = map;
        Ok(())
    }

    /// Builder-style method to add or modify a data alignment requirement
    /// for a file type.
    pub fn with_alignment_requirement(self, ext: String, alignment: usize) -> (r: Self)
        requires
            spec_is_valid_alignment(alignment),
        ensures
            r.spec_alignment_map() == spec_map_insert(self.spec_alignment_map(), ext@, alignment),
            r.spec_files() == self.spec_files(),
            r.spec_endian() == self.spec_endian(),
            r.spec_legacy() == self.spec_legacy(),
            r.spec_min_alignment() == self.spec_min_alignment(),
    {
        let mut w = self;
        let _ = w.add_alignment_requirement(ext, alignment);
        w
    }

    /// Adds the default alignment requirements.
    fn add_default_alignments(&mut self)
        ensures
            final(self).spec_alignment_map() == spec_default_alignments(
                old(self).spec_alignment_map(),
                old(self).spec_endian(),
            ),
            final(self).spec_files() == old(self).spec_files(),
            final(self).spec_endian() == old(self).spec_endian(),
            final(self).spec_legacy() == old(self).spec_legacy(),
            final(self).spec_min_alignment() == old(self).spec_min_alignment(),
    {
        assert(spec_is_valid_alignment(8usize)) by (bit_vector);
        assert(spec_is_valid_alignment(0x80usize)) by (bit_vector);
        assert(spec_is_valid_alignment(0x1000usize)) by (bit_vector);
        assert(spec_is_valid_alignment(0x2000usize)) by (bit_vector);
        reveal(spec_default_alignments);
        let _ = self.add_alignment_requirement("ksky".to_owned(), 8);
        let _ = self.add_alignment_requirement("ksky".to_owned(), 8);
        let _ = self.add_alignment_requirement("bksky".to_owned(), 8);
        let _ = self.add_alignment_requirement("gtx".to_owned(), 0x2000);
        let _ = self.add_alignment_requirement("sharcb".to_owned(), 0x1000);
        let _ = self.add_alignment_requirement("sharc".to_owned(), 0x1000);
        let _ = self.add_alignment_requirement("baglmf".to_owned(), 0x80);
        let bffnt: usize = match self.endian {
            Endian::Big => 0x2000,
            Endian::Little => 0x1000,
        };
        let _ = self.add_alignment_requirement("bffnt".to_owned(), bffnt);
    }

    /// Set the minimum data alignment. Fails unless it is a power of two.
    pub fn set_min_alignment(&mut self, alignment: usize) -> (r: Result<()>)
        ensures
            r is Ok <==> spec_is_valid_alignment(alignment),
            r matches Err(e) ==> e == Error::InvalidData("Invalid minimum SARC file alignment"),
            final(self).spec_min_alignment() == if spec_is_valid_alignment(alignment) {
                alignment
            } else {
                old(self).spec_min_alignment()
            },
            final(self).spec_files() == old(self).spec_files(),
            final(self).spec_endian() == old(self).spec_endian(),
            final(self).spec_legacy() == old(self).spec_legacy(),
            final(self).spec_alignment_map() == old(self).spec_alignment_map(),
    {
        if !is_valid_alignment(alignment) {
            return Err(Error::InvalidData("Invalid minimum SARC file alignment"));
        }
        proof {
            use_type_invariant(&*self);
        }
        self.min_alignment = alignment;
        Ok(())
    }

    /// Builder-style method to set the minimum data alignment.
    pub fn with_min_alignment(self, alignment: usize) -> (r: Self)
        requires
            spec_is_valid_alignment(alignment),
        ensures
            r.spec_min_alignment() == alignment,
            r.spec_files() == self.spec_files(),
            r.spec_endian() == self.spec_endian(),
            r.spec_legacy() == self.spec_legacy(),
            r.spec_alignment_map() == self.spec_alignment_map(),
    {
        let mut w = self;
        let _ = w.set_min_alignment(alignment);
        w
    }

    /// Set whether to use legacy mode (for games without a BOTW-style
    /// resource system) for additional alignment restrictions.
    pub fn set_legacy_mode(&mut self, value: bool)
        ensures
            final(self).spec_legacy() == value,
            final(self).spec_files() == old(self).spec_files(),
            final(self).spec_endian() == old(self).spec_endian(),
            final(self).spec_min_alignment() == old(self).spec_min_alignment(),
            final(self).spec_alignment_map() == old(self).spec_alignment_map(),
    {
        proof {
            use_type_invariant(&*self);
        }
        self.legacy = value;
    }

    /// Builder-style method to set legacy mode.
    pub fn with_legacy_mode(self, value: bool) -> (r: Self)
        ensures
            r.spec_legacy() == value,
            r.spec_files() == self.spec_files(),
            r.spec_endian() == self.spec_endian(),
            r.spec_min_alignment() == self.spec_min_alignment(),
            r.spec_alignment_map() == self.spec_alignment_map(),
    {
        let mut w = self;
        w.set_legacy_mode(value);
        w
    }

    /// Set the endianness.
    pub fn set_endian(&mut self, endian: Endian)
        ensures
            final(self).spec_endian() == endian,
            final(self).spec_files() == old(self).spec_files(),
            final(self).spec_legacy() == old(self).spec_legacy(),
            final(self).spec_min_alignment() == old(self).spec_min_alignment(),
            final(self).spec_alignment_map() == old(self).spec_alignment_map(),
    {
        proof {
            use_type_invariant(&*self);
        }
        self.endian = endian;
    }

    /// Builder-style method to set the endianness.
    pub fn with_endian(self, endian: Endian) -> (r: Self)
        ensures
            r.spec_endian() == endian,
            r.spec_files() == self.spec_files(),
            r.spec_legacy() == self.spec_legacy(),
            r.spec_min_alignment() == self.spec_min_alignment(),
            r.spec_alignment_map() == self.spec_alignment_map(),
    {
        let mut w = self;
        w.set_endian(endian);
        w
    }

    /// Checks if a data slice represents a SARC archive.
    pub fn is_file_sarc(data: &[u8]) -> (r: bool)
        ensures
            r == spec_is_file_sarc(data@),
    {
        let sarc: [u8; 4] = [0x53, 0x41, 0x52, 0x43];
        let yaz0: [u8; 4] = [0x59, 0x61, 0x7A, 0x30];
        assert(sarc@ =~= sarc_magic());
        assert(yaz0@ =~= seq![0x59u8, 0x61u8, 0x7Au8, 0x30u8]);
        data.len() >= 0x20 && (magic_at(data, 0, sarc.as_slice()) || (magic_at(
            data,
            0,
            yaz0.as_slice(),
        ) && magic_at(data, 0x11, sarc.as_slice())))
    }

    /// The alignment that a new-style binary file asks for.
    fn get_alignment_for_new_binary_file(data: &[u8]) -> (r: usize)
        requires
            spec_new_binary_alignment(data@) is Some,
        ensures
            r == spec_new_binary_alignment(data@)->Some_0,
    {
        if data.len() <= 0x20 {
            return 1;
        }
        let endian = if data[0xC] == 0xFF && data[0xD] == 0xFE {
            Endian::Big
        } else if data[0xC] == 0xFE && data[0xD] == 0xFF {
            Endian::Little
        } else {
            return 1;
        };
        let file_size = read_u32(data, 0x1C, endian);
        if file_size as usize != data.len() {
            return 1;
        }
        let shift = data[0xE] as usize;
        proof {
            vstd::bits::lemma_usize_pow2_no_overflow(shift as nat);
            vstd::bits::lemma_usize_shl_is_mul(1, shift);
        }
        1usize << shift
    }

    /// The alignment that a Wii U `FLIM` texture asks for.
    fn get_alignment_for_cafe_bflim(data: &[u8]) -> (r: usize)
        ensures
            r == spec_bflim_alignment(data@),
    {
        let flim: [u8; 4] = [0x46, 0x4C, 0x49, 0x4D];
        assert(flim@ =~= seq![0x46u8, 0x4Cu8, 0x49u8, 0x4Du8]);
        if data.len() <= 0x28 || !magic_at(data, data.len() - 0x28, flim.as_slice()) {
            1
        } else {
            read_u16(data, data.len() - 8, Endian::Big) as usize
        }
    }

    /// The requirement that the alignment table gives for an extension,
    /// which stands in `name` from `start` on.
    fn lookup_alignment(&self, name: &[u8], start: usize) -> (r: Option<usize>)
        requires
            start <= name@.len(),
        ensures
            r == spec_map_get(self.spec_alignment_map(), name@.skip(start as int)),
    {
        let ghost map = self.spec_alignment_map();
        let ghost ext = name@.skip(start as int);
        let n = self.alignment_map.len();
        let mut i: usize = 0;
        while i < n
            invariant
                n == map.len(),
                map == self.spec_alignment_map(),
                start <= name@.len(),
                ext == name@.skip(start as int),
                i <= n,
                spec_map_get(map, ext) == spec_map_get_from(map, ext, i as int),
            decreases n - i,
        {
            let key = self.alignment_map[i].0.as_str().as_bytes();
            assert(key@ == str_bytes(map[i as int].0));
            if suffix_eq(key, name, start) {
                return Some(self.alignment_map[i].1);
            }
            i += 1;
        }
        None
    }

    /// The data alignment of a file in this archive.
    fn get_alignment_for_file(&self, name: &str, data: &[u8]) -> (r: usize)
        requires
            spec_file_alignment(
                self.spec_min_alignment(),
                self.spec_alignment_map(),
                self.spec_legacy(),
                self.spec_endian(),
                name.spec_bytes(),
                data@,
            ) is Some,
        ensures
            r == spec_file_alignment(
                self.spec_min_alignment(),
                self.spec_alignment_map(),
                self.spec_legacy(),
                self.spec_endian(),
                name.spec_bytes(),
                data@,
            )->Some_0,
    {
        reveal(spec_file_alignment);
        let bytes = name.as_bytes();
        let requirement = match last_dot(bytes) {
            Some(i) => self.lookup_alignment(bytes, i + 1),
            None => {
                assert(bytes@.skip(bytes@.len() as int) =~= Seq::<u8>::empty());
                self.lookup_alignment(bytes, bytes.len())
            },
        };
        let mut alignment = self.min_alignment;
        if let Some(req) = requirement {
            alignment = lcm_usize(alignment, req);
        }
        if self.legacy && Self::is_file_sarc(data) {
            alignment = lcm_usize(alignment, 0x2000);
        }
        alignment = lcm_usize(alignment, Self::get_alignment_for_new_binary_file(data));
        if let Endian::Big = self.endian {
            alignment = lcm_usize(alignment, Self::get_alignment_for_cafe_bflim(data));
        }
        alignment
    }

    /// The alignment of file `k` once the default requirements are in the
    /// table, as writing computes it.
    pub open spec fn spec_write_alignment(&self, k: int) -> Option<nat> {
        spec_file_alignment(
            self.spec_min_alignment(),
            spec_default_alignments(self.spec_alignment_map(), self.spec_endian()),
            self.spec_legacy(),
            self.spec_endian(),
            str_bytes(self.spec_files()[k].0),
            self.spec_files()[k].1,
        )
    }

    /// The alignments of all files, as writing computes them.
    pub open spec fn spec_write_alignments(&self) -> Seq<usize> {
        Seq::new(
            self.spec_files().len(),
            |k: int| (self.spec_write_alignment(k)->Some_0) as usize,
        )
    }

    /// Writing does not panic: no alignment computation overflows, and the
    /// layout fits the format's 32-bit fields.
    pub open spec fn spec_can_write(&self) -> bool {
        &&& forall|k: int|
            0 <= k < self.spec_files().len() ==> #[trigger] self.spec_write_alignment(k) is Some
        &&& spec_layout_fits(self.spec_files(), self.spec_write_alignments())
    }

    /// The inputs on which the written archive reads back as the files:
    /// fewer than 0x4000 files, a name table under 64 MiB, no NUL in a name,
    /// every file's data inside the written archive (an empty last file may
    /// not start past its end), and, for big-endian archives, `FLIM`
    /// textures that ask for a power of two.
    pub open spec fn spec_reads_back_ok(&self) -> bool {
        let files = self.spec_files();
        let n = files.len() as int;
        &&& n < 0x4000
        &&& spec_name_ref(files, n) < 0x4000000
        &&& forall|k: int, j: int|
            0 <= k < n && 0 <= j < name_bytes(files, k).len() ==> #[trigger] name_bytes(files, k)[j]
                != 0
        &&& spec_data_in_archive(files, self.spec_write_alignments(), self.spec_endian())
        &&& self.spec_endian() == Endian::Big ==> forall|k: int|
            0 <= k < n ==> crate::util::is_pow2_mask(
                #[trigger] spec_bflim_alignment(files[k].1) as int,
            )
    }

    /// The archive that writing produces.
    pub open spec fn spec_to_binary(&self) -> Seq<u8> {
        spec_sarc_binary(self.spec_files(), self.spec_write_alignments(), self.spec_endian())
    }

    /// The data alignment of each file, with the current table.
    fn file_alignments(&self) -> (r: Vec<usize>)
        requires
            forall|k: int|
                0 <= k < self.spec_files().len() ==> (#[trigger] spec_file_alignment(
                    self.spec_min_alignment(),
                    self.spec_alignment_map(),
                    self.spec_legacy(),
                    self.spec_endian(),
                    str_bytes(self.spec_files()[k].0),
                    self.spec_files()[k].1,
                )) is Some,
        ensures
            r@ == Seq::new(
                self.spec_files().len(),
                |k: int|
                    (spec_file_alignment(
                        self.spec_min_alignment(),
                        self.spec_alignment_map(),
                        self.spec_legacy(),
                        self.spec_endian(),
                        str_bytes(self.spec_files()[k].0),
                        self.spec_files()[k].1,
                    )->Some_0) as usize,
            ),
    {
        let ghost files = self.spec_files();
        let n = self.files.len();
        let mut v: Vec<usize> = Vec::new();
        let mut k: usize = 0;
        while k < n
            invariant
                n == files.len(),
                files == self.spec_files(),
                k <= n,
                v@.len() == k,
                forall|j: int|
                    0 <= j < k ==> v@[j] == (spec_file_alignment(
                        self.spec_min_alignment(),
                        self.spec_alignment_map(),
                        self.spec_legacy(),
                        self.spec_endian(),
                        str_bytes(files[j].0),
                        files[j].1,
                    )->Some_0) as usize,
                forall|j: int|
                    0 <= j < files.len() ==> (#[trigger] spec_file_alignment(
                        self.spec_min_alignment(),
                        self.spec_alignment_map(),
                        self.spec_legacy(),
                        self.spec_endian(),
                        str_bytes(files[j].0),
                        files[j].1,
                    )) is Some,
            decreases n - k,
        {
            let name = self.files[k].0.as_str();
            let data = self.files[k].1.as_slice();
            assert(name.spec_bytes() == str_bytes(files[k as int].0));
            assert(data@ == files[k as int].1);
            let a = self.get_alignment_for_file(name, data);
            v.push(a);
            k += 1;
        }
        assert(v@ =~= Seq::new(
            self.spec_files().len(),
            |k: int|
                (spec_file_alignment(
                    self.spec_min_alignment(),
                    self.spec_alignment_map(),
                    self.spec_legacy(),
                    self.spec_endian(),
                    str_bytes(self.spec_files()[k].0),
                    self.spec_files()[k].1,
                )->Some_0) as usize,
        ));
        v
    }

    /// Write a SARC archive to an in-memory buffer using the specified
    /// endianness. The default alignment requirements are added to the
    /// table first.
    #[verifier::spinoff_prover]
    #[verifier::rlimit(40)]
    pub fn to_binary(&mut self) -> (r: Vec<u8>)
        requires
            old(self).spec_can_write(),
        ensures
            r@ == old(self).spec_to_binary(),
            old(self).spec_reads_back_ok() ==> spec_reads_back(
                r@,
                old(self).spec_files(),
                old(self).spec_endian(),
            ),
            final(self).spec_alignment_map() == spec_default_alignments(
                old(self).spec_alignment_map(),
                old(self).spec_endian(),
            ),
            final(self).spec_files() == old(self).spec_files(),
            final(self).spec_endian() == old(self).spec_endian(),
            final(self).spec_legacy() == old(self).spec_legacy(),
            final(self).spec_min_alignment() == old(self).spec_min_alignment(),
    {
        let ghost files = old(self).spec_files();
        let ghost aligns = old(self).spec_write_alignments();
        let e = self.endian;
        let ghost ops = spec_write_ops(files, aligns, e);
        proof {
            use_type_invariant(&*self);
            assert(map_values_valid(self.spec_alignment_map()));
            if self.spec_reads_back_ok() {
                writer_reads_back(&*self);
            }
        }
        self.add_default_alignments();
        proof {
            assert forall|k: int| 0 <= k < files.len() implies (#[trigger] spec_file_alignment(
                self.spec_min_alignment(),
                self.spec_alignment_map(),
                self.spec_legacy(),
                self.spec_endian(),
                str_bytes(self.spec_files()[k].0),
                self.spec_files()[k].1,
            )) is Some by {
                assert(old(self).spec_write_alignment(k) is Some);
            }
        }
        let alignments = self.file_alignments();
        assert(alignments@ =~= aligns);
        let n = self.files.len();
        let mut buf: Vec<u8> = Vec::new();
        proof {
            assert(ops.take(0) =~= Seq::<(int, Seq<u8>)>::empty());
            lemma_apply_step(ops, 0);
            assert(spec_prefix_fits(files, aligns, 0));
        }
        let fat = fat_header(n as u16, e);
        write_at(&mut buf, 0x14, fat.as_slice());
        write_entries(&mut buf, &self.files, &alignments, e);
        proof {
            lemma_apply_step(ops, n + 1);
        }
        let fnt = fnt_header(e);
        write_at(&mut buf, 0x20 + 16 * n, fnt.as_slice());
        let names_end = write_names(&mut buf, &self.files, &alignments, e);
        let (data_start, file_size) = write_data(&mut buf, &self.files, &alignments, e, names_end);
        proof {
            lemma_apply_step(ops, 4 * n + 2);
            assert(ops.take(4 * n + 3) =~= ops);
        }
        let header = sarc_header(file_size as u32, data_start as u32, e);
        write_at(&mut buf, 0, header.as_slice());
        proof {
            reveal(spec_sarc_binary);
        }
        buf
    }

    /// Creates a new SARC writer by taking attributes and files from an
    /// existing SARC reader.
    pub fn from_sarc(sarc: &Sarc) -> (r: SarcWriter)
        requires
            sarc.spec_begins_fit(),
            sarc.spec_iter_entries_ok(),
        ensures
            r.spec_endian() == sarc.spec_endian(),
            !r.spec_legacy(),
            r.spec_alignment_map() == Seq::<(Seq<char>, usize)>::empty(),
            ({
                let g = sarc.spec_gcd_prefix(sarc.spec_num_files() as int);
                r.spec_min_alignment() == if spec_is_valid_alignment(g as usize) {
                    g as usize
                } else {
                    4usize
                }
            }),
            r.spec_files() == spec_from_sarc_files(sarc),
    {
        let mut w = SarcWriter::new(sarc.endian());
        let g = sarc.guess_min_alignment();
        assert(spec_is_valid_alignment(4usize)) by (bit_vector);
        let _ = w.set_min_alignment(g);
        let mut it = sarc.files();
        let ghost mut m: int = 0;
        let mut done = false;
        while !done
            invariant
                it.spec_sarc() == sarc,
                sarc.spec_iter_entries_ok(),
                0 <= m <= sarc.spec_num_files(),
                !done ==> it.spec_position() == m,
                forall|j: int| 0 <= j < m ==> #[trigger] sarc.spec_file_ok(j),
                done ==> spec_readable_prefix(sarc, m),
                w.spec_files() == spec_insert_files(Seq::empty(), spec_iter_files(sarc, m)),
                w.spec_endian() == sarc.spec_endian(),
                !w.spec_legacy(),
                w.spec_alignment_map() == Seq::<(Seq<char>, usize)>::empty(),
                w.spec_min_alignment() == g,
            decreases sarc.spec_num_files() - m, (if done { 0nat } else { 1nat }),
        {
            match it.next() {
                Some(f) => {
                    let ghost items = spec_iter_files(sarc, m + 1);
                    match f.name() {
                        Some(name) => {
                            let data = vstd::slice::slice_to_vec(f.data());
                            proof {
                                vstd::utf8::encode_utf8_decode_utf8(name@);
                                assert(items.drop_last() =~= spec_iter_files(sarc, m));
                                assert(items.last() == (name@, data@));
                            }
                            w.add_file(name, data);
                        },
                        None => {
                            assert(items == spec_iter_files(sarc, m));
                        },
                    }
                    proof {
                        m = m + 1;
                    }
                },
                None => {
                    done = true;
                },
            }
        }
        proof {
            assert(spec_readable_prefix(sarc, m));
            let c = choose|c: int| spec_readable_prefix(sarc, c);
            if c < m {
                assert(sarc.spec_file_ok(c));
            }
            if c > m {
                assert(sarc.spec_file_ok(m));
            }
            assert(c == m);
        }
        w
    }
}

} // verus!
