//! What a reader gives back of an archive that the writer wrote.
use vstd::prelude::*;
use crate::Endian;
use super::spec_is_valid_alignment;
use vstd::arithmetic::power2::pow2;
use crate::util::{
    is_pow2_mask,
    lemma_valid_alignment_mask,
    lemma_find_null_after,
    lemma_ordered_writes,
    lemma_read_u16_at,
    lemma_read_u32_at,
    spec_apply_writes,
    spec_read_u16,
    spec_read_u32,
    spec_u16_bytes,
    spec_u32_bytes,
    spec_write_at,
    writes_end,
    lemma_writes_end_le,
    lemma_consecutive_ordered,
    writes_ordered,
    lemma_align_aligned,
    lemma_align_pos_bounds,
    lemma_align_shift,
    lemma_aligned_add,
    lemma_aligned_coarser,
    lemma_lcm_pow2_mask,
    spec_align_pos,
};
use super::write::{
    SarcWriter,
    added_alignment_is_found,
    map_keys_unique,
    spec_ext,
    str_bytes,
    spec_data_in_archive,
    file_hash,
    lcm_step,
    spec_bflim_alignment,
    spec_default_alignments,
    spec_file_alignment,
    spec_map_get,
    spec_map_get_from,
    spec_map_insert,
    spec_new_binary_alignment,
    files_sorted,
    name_bytes,
    spec_sarc_binary,
    spec_entry_bytes,
    spec_fat_header,
    spec_fnt_header,
    spec_sarc_header,
    spec_bom_bytes,
    spec_entry_fields,
    spec_write_op,
    spec_write_ops,
    sarc_magic,
    spec_abs_begin,
    spec_abs_end,
    spec_data_start,
    spec_file_fits,
    spec_layout_fits,
    spec_name_pos,
    spec_name_ref,
    spec_prefix_fits,
    spec_rel_begin,
    spec_rel_end,
    spec_required_alignment,
};

use super::parse::{
    spec_bom,
    spec_data_offset_of,
    spec_entries_ok_of,
    spec_entry_of,
    spec_entry_ok_of,
    spec_file_data_of,
    spec_file_name_of,
    spec_file_ok_of,
    spec_hash_multiplier_of,
    spec_hashes_sorted_of,
    spec_name_bytes_of,
    spec_name_end_of,
    spec_name_offset_of,
    spec_num_files_of,
    spec_sarc_fault,
};

verus! {

/// Every alignment is a power of two.
pub open spec fn aligns_pow2(aligns: Seq<usize>) -> bool {
    forall|k: int| 0 <= k < aligns.len() ==> is_pow2_mask(#[trigger] aligns[k] as int)
}

/// The least common multiple of the first `k` alignments is a power of two
/// that each of them is at most.
proof fn lemma_required_alignment(aligns: Seq<usize>, k: int)
    requires
        aligns_pow2(aligns),
        0 <= k <= aligns.len(),
    ensures
        is_pow2_mask(spec_required_alignment(aligns, k) as int),
        forall|j: int| 0 <= j < k ==> aligns[j] <= spec_required_alignment(aligns, k),
    decreases k,
{
    if k == 0 {
        assert(1u64 & 0u64 == 0) by (bit_vector);
    } else {
        lemma_required_alignment(aligns, k - 1);
        assert(is_pow2_mask(aligns[k - 1] as int));
        lemma_lcm_pow2_mask(spec_required_alignment(aligns, k - 1) as int, aligns[k - 1] as int);
    }
}

/// 4 is a power of two, and every table offset `0x28 + 16 * n` is a multiple of it.
proof fn lemma_four(n: int)
    requires
        0 <= n <= u32::MAX,
    ensures
        is_pow2_mask(4),
        ((0x28 + 16 * n) as u64) & 3 == 0,
{
    assert(4u64 & 3u64 == 0) by (bit_vector);
    let nn = n as u64;
    assert(nn <= 0xFFFF_FFFF ==> ((0x28 + 16 * nn) as u64) & 3 == 0) by (bit_vector);
}

/// The names follow the SFNT header at their recorded offsets, which are
/// multiples of 4, each after the previous name and its NUL.
proof fn lemma_names(files: Seq<(Seq<char>, Seq<u8>)>, aligns: Seq<usize>, k: int)
    requires
        spec_layout_fits(files, aligns),
        0 <= k <= files.len(),
    ensures
        spec_name_pos(files, k) == 0x28 + 16 * files.len() + spec_name_ref(files, k),
        (spec_name_ref(files, k) as u64) & 3 == 0,
        k > 0 ==> spec_name_pos(files, k - 1) + name_bytes(files, k - 1).len() + 1
            <= spec_name_pos(files, k),
        spec_name_pos(files, 0) <= spec_name_pos(files, k),
    decreases k,
{
    let n = files.len() as int;
    assert(spec_prefix_fits(files, aligns, 0));
    lemma_four(n);
    if k == 0 {
        assert(0u64 & 3 == 0) by (bit_vector);
    } else {
        lemma_names(files, aligns, k - 1);
        assert(spec_prefix_fits(files, aligns, k - 1));
        assert(spec_prefix_fits(files, aligns, k));
        assert(spec_file_fits(files, aligns, k - 1));
        let len = name_bytes(files, k - 1).len() as int;
        let base = 0x28 + 16 * n;
        let r = spec_name_ref(files, k - 1);
        lemma_aligned_add(base, r, 4);
        lemma_align_shift(base + r, len + 1, 4);
        lemma_align_aligned(len + 1, 4);
        lemma_aligned_add(r, spec_align_pos(len + 1, 4), 4);
        lemma_align_pos_bounds(spec_name_pos(files, k - 1) + len + 1, 4);
    }
}

/// The data of each file stands at the data start plus the offset that its
/// entry records, after the previous file's data.
proof fn lemma_data(files: Seq<(Seq<char>, Seq<u8>)>, aligns: Seq<usize>, k: int)
    requires
        spec_layout_fits(files, aligns),
        aligns_pow2(aligns),
        0 <= k <= files.len(),
    ensures
        spec_abs_end(files, aligns, k) == spec_data_start(files, aligns) + spec_rel_end(
            files,
            aligns,
            k,
        ),
        k < files.len() ==> spec_abs_begin(files, aligns, k) == spec_data_start(files, aligns)
            + spec_rel_begin(files, aligns, k),
        k < files.len() ==> spec_abs_end(files, aligns, k) <= spec_abs_begin(files, aligns, k),
        spec_data_start(files, aligns) <= spec_abs_end(files, aligns, k),
        spec_name_pos(files, files.len() as int) <= spec_data_start(files, aligns),
    decreases k,
{
    let n = files.len() as int;
    let d0 = spec_data_start(files, aligns);
    let r = spec_required_alignment(aligns, n);
    lemma_required_alignment(aligns, n);
    assert(spec_prefix_fits(files, aligns, n));
    assert(spec_prefix_fits(files, aligns, 0));
    lemma_align_aligned(spec_name_pos(files, n), r as int);
    lemma_align_pos_bounds(spec_name_pos(files, n), r as int);
    if k > 0 {
        lemma_data(files, aligns, k - 1);
    }
    if k < n {
        assert(spec_prefix_fits(files, aligns, k));
        assert(spec_file_fits(files, aligns, k));
        let a = aligns[k] as int;
        assert(is_pow2_mask(a));
        lemma_aligned_coarser(d0, a, r as int);
        if k > 0 {
            lemma_data(files, aligns, k - 1);
        }
        lemma_align_shift(d0, spec_rel_end(files, aligns, k), a);
        lemma_align_pos_bounds(spec_abs_end(files, aligns, k), a);
    }
}


/// The sizes of the headers and entries.
proof fn lemma_lengths(files: Seq<(Seq<char>, Seq<u8>)>, aligns: Seq<usize>, e: Endian)
    ensures
        forall|x: u16| #[trigger] spec_fat_header(x, e).len() == 12,
        spec_fnt_header(e).len() == 8,
        forall|x: u32, y: u32| #[trigger] spec_sarc_header(x, y, e).len() == 0x14,
        forall|k: int| #[trigger] spec_entry_bytes(files, aligns, k, e).len() == 16,
{
}

/// All writes but the archive header are made in order of position.
proof fn lemma_body_ordered(files: Seq<(Seq<char>, Seq<u8>)>, aligns: Seq<usize>, e: Endian)
    requires
        spec_layout_fits(files, aligns),
        aligns_pow2(aligns),
    ensures
        writes_ordered(spec_write_ops(files, aligns, e).take(4 * files.len() + 2int)),
{
    let n = files.len() as int;
    let ops = spec_write_ops(files, aligns, e);
    let body = ops.take(4 * n + 2);
    lemma_lengths(files, aligns, e);
    lemma_names(files, aligns, n);
    lemma_data(files, aligns, 0);
    assert forall|m: int| 0 <= m < body.len() implies 0 <= #[trigger] body[m].0 by {
        assert(body[m] == spec_write_op(files, aligns, e, m));
        if n + 2 <= m < 3 * n + 2 {
            lemma_names(files, aligns, (m - n - 2) / 2);
        }
        if 3 * n + 2 <= m < 4 * n + 2 {
            lemma_data(files, aligns, m - 3 * n - 2);
            lemma_data(files, aligns, 0);
        }
    }
    assert forall|m: int| 0 <= m < body.len() - 1 implies #[trigger] body[m].0 + body[m].1.len()
        <= body[m + 1].0 by {
        assert(body[m] == spec_write_op(files, aligns, e, m));
        assert(body[m + 1] == spec_write_op(files, aligns, e, m + 1));
        if n + 2 <= m < 3 * n + 2 {
            let j = m - n - 2;
            let k = j / 2;
            lemma_names(files, aligns, k + 1);
            if k + 1 == n {
                lemma_data(files, aligns, 0);
            }
        }
        if 3 * n + 2 <= m < 4 * n + 1 {
            let k = m - 3 * n - 2;
            lemma_data(files, aligns, k);
            lemma_data(files, aligns, k + 1);
        }
    }
    lemma_consecutive_ordered(body);
}

/// What reading an archive gives back: it is an uncompressed SARC archive
/// in the given byte order, with the files in their order, each with its
/// name, its data and the hash of its name.
pub open spec fn spec_reads_back(d: Seq<u8>, files: Seq<(Seq<char>, Seq<u8>)>, e: Endian) -> bool {
    &&& !crate::yaz0::spec_has_magic(d)
    &&& spec_sarc_fault(d) is None
    &&& spec_bom(d) == Some(e)
    &&& spec_num_files_of(d) == files.len()
    &&& spec_hash_multiplier_of(d) == 0x65
    &&& spec_entries_ok_of(d)
    &&& spec_hashes_sorted_of(d)
    &&& forall|i: int| 0 <= i < files.len() ==> #[trigger] spec_file_reads_back(d, files, i)
}

/// File `i` of an archive is the `i`-th of the files: its name can be read
/// and is the file's name, its data is the file's data, and its entry holds
/// the hash of the file's name.
pub open spec fn spec_file_reads_back(d: Seq<u8>, files: Seq<(Seq<char>, Seq<u8>)>, i: int) -> bool {
    &&& spec_file_ok_of(d, i)
    &&& spec_file_name_of(d, i) == Some(name_bytes(files, i))
    &&& spec_file_data_of(d, i) == files[i].1
    &&& spec_entry_of(d, i, 0) == file_hash(files[i].0)
}

/// Names move forward, and so does data.
proof fn lemma_monotone(files: Seq<(Seq<char>, Seq<u8>)>, aligns: Seq<usize>, j: int, k: int)
    requires
        spec_layout_fits(files, aligns),
        aligns_pow2(aligns),
        0 <= j <= k <= files.len(),
    ensures
        spec_name_pos(files, j) <= spec_name_pos(files, k),
        spec_abs_end(files, aligns, j) <= spec_abs_end(files, aligns, k),
    decreases k - j,
{
    if j < k {
        lemma_monotone(files, aligns, j, k - 1);
        lemma_names(files, aligns, k);
        lemma_data(files, aligns, k - 1);
    }
}

/// The bytes of the archive: the header at the start, every other write's
/// bytes where it was written; the length is where the last data ends.
proof fn lemma_image(files: Seq<(Seq<char>, Seq<u8>)>, aligns: Seq<usize>, e: Endian)
    requires
        spec_layout_fits(files, aligns),
        aligns_pow2(aligns),
        spec_data_in_archive(files, aligns, e),
    ensures
        ({
            let n = files.len() as int;
            let ops = spec_write_ops(files, aligns, e);
            let d = spec_sarc_binary(files, aligns, e);
            &&& d.len() == if n == 0 {
                0x28
            } else {
                spec_abs_end(files, aligns, n)
            }
            &&& forall|i: int| 0 <= i < 0x14 ==> d[i] == #[trigger] ops[4 * n + 2].1[i]
            &&& forall|m: int, i: int|
                0 <= m < 4 * n + 2 && 0 <= i < ops[m].1.len() ==> d[ops[m].0 + i]
                    == #[trigger] ops[m].1[i]
            &&& forall|m: int|
                0 <= m < 4 * n + 2 && ops[m].1.len() > 0 ==> #[trigger] ops[m].0 + ops[m].1.len()
                    <= d.len()
        }),
{
    let n = files.len() as int;
    let ops = spec_write_ops(files, aligns, e);
    let body = ops.take(4 * n + 2);
    lemma_body_ordered(files, aligns, e);
    lemma_ordered_writes(body);
    lemma_lengths(files, aligns, e);
    let b = spec_apply_writes(body);
    assert(ops.drop_last() =~= body);
    let h = ops[4 * n + 2];
    assert(h == spec_write_op(files, aligns, e, 4 * n + 2));
    assert(h.0 == 0 && h.1.len() == 0x14);
    assert(body[0] == spec_write_op(files, aligns, e, 0));
    assert(body[0].0 + body[0].1.len() <= b.len());
    reveal(spec_write_at);
    reveal(spec_sarc_binary);
    let d = spec_sarc_binary(files, aligns, e);
    assert(d == spec_write_at(b, 0, h.1));
    if n == 0 {
        assert(body.last() == spec_write_op(files, aligns, e, 1));
        assert(writes_end(body) == 0x28);
    } else {
        let last = 4 * n + 1;
        assert(body.last() == spec_write_op(files, aligns, e, last));
        lemma_data(files, aligns, n - 1);
        let q = spec_abs_end(files, aligns, n);
        assert(body[last].0 + body[last].1.len() == q);
        assert forall|m: int| 0 <= m < body.len() implies #[trigger] body[m].0 + body[m].1.len()
            <= q by {
            if m < last {
                assert(body[m].0 + body[m].1.len() <= body[last].0);
            }
        }
        lemma_writes_end_le(body, q);
        assert(d.len() == b.len());
        assert(writes_end(body) == q);
    }
    assert forall|m: int, i: int| 0 <= m < 4 * n + 2 && 0 <= i < ops[m].1.len() implies d[ops[m].0
        + i] == #[trigger] ops[m].1[i] by {
        assert(body[m] == ops[m]);
        assert(body[m].1[i] == b[body[m].0 + i]);
        if m > 0 {
            assert(body[0].0 + body[0].1.len() <= body[m].0);
        }
    }
    assert forall|m: int| 0 <= m < 4 * n + 2 && ops[m].1.len() > 0 implies #[trigger] ops[m].0
        + ops[m].1.len() <= d.len() by {
        assert(body[m] == ops[m]);
    }
}

/// Where the fields stand in the headers and entries.
proof fn lemma_field_bytes(e: Endian)
    ensures
        forall|fs: u32, ds: u32, t: int|
            0 <= t < 4 ==> #[trigger] spec_sarc_header(fs, ds, e)[t] == sarc_magic()[t],
        forall|fs: u32, ds: u32, t: int|
            0 <= t < 2 ==> #[trigger] spec_sarc_header(fs, ds, e)[4 + t] == spec_u16_bytes(0x14, e)[t]
                && spec_sarc_header(fs, ds, e)[6 + t] == spec_bom_bytes(e)[t]
                && spec_sarc_header(fs, ds, e)[0x10 + t] == spec_u16_bytes(0x100, e)[t],
        forall|fs: u32, ds: u32, t: int|
            0 <= t < 4 ==> #[trigger] spec_sarc_header(fs, ds, e)[0xC + t] == spec_u32_bytes(ds, e)[t],
        forall|x: u16, t: int|
            0 <= t < 2 ==> #[trigger] spec_fat_header(x, e)[4 + t] == spec_u16_bytes(0x0C, e)[t]
                && spec_fat_header(x, e)[6 + t] == spec_u16_bytes(x, e)[t],
        forall|x: u16, t: int|
            0 <= t < 4 ==> #[trigger] spec_fat_header(x, e)[8 + t] == spec_u32_bytes(0x65, e)[t],
        forall|t: int| 0 <= t < 2 ==> #[trigger] spec_fnt_header(e)[4 + t] == spec_u16_bytes(8, e)[t],
        forall|h: u32, r: u32, b: u32, en: u32, k: int, t: int|
            0 <= t < 4 ==> #[trigger] spec_entry_fields(h, r, b, en, e)[k * 4 + t] == if k == 0 {
                spec_u32_bytes(h, e)[t]
            } else if k == 1 {
                spec_u32_bytes(0x1000000u32 | (r / 4), e)[t]
            } else if k == 2 {
                spec_u32_bytes(b, e)[t]
            } else if k == 3 {
                spec_u32_bytes(en, e)[t]
            } else {
                spec_entry_fields(h, r, b, en, e)[k * 4 + t]
            },
{
}

/// A 16-bit field that a write (not the archive header) put in place reads back.
proof fn lemma_op_u16(
    files: Seq<(Seq<char>, Seq<u8>)>,
    aligns: Seq<usize>,
    e: Endian,
    m: int,
    t: int,
    x: u16,
)
    requires
        spec_layout_fits(files, aligns),
        aligns_pow2(aligns),
        spec_data_in_archive(files, aligns, e),
        0 <= m < 4 * files.len() + 2,
        0 <= t,
        t + 2 <= spec_write_ops(files, aligns, e)[m].1.len(),
        spec_write_ops(files, aligns, e)[m].1.subrange(t, t + 2) == spec_u16_bytes(x, e),
    ensures
        spec_read_u16(spec_sarc_binary(files, aligns, e), spec_write_ops(files, aligns, e)[m].0 + t, e)
            == x,
{
    let ops = spec_write_ops(files, aligns, e);
    let d = spec_sarc_binary(files, aligns, e);
    lemma_image(files, aligns, e);
    lemma_body_ordered(files, aligns, e);
    assert(ops.take(4 * files.len() + 2int)[m] == ops[m]);
    assert(d[ops[m].0 + t] == ops[m].1[t]);
    assert(d[ops[m].0 + (t + 1)] == ops[m].1[t + 1]);
    assert(ops[m].1.subrange(t, t + 2)[0] == ops[m].1[t]);
    assert(ops[m].1.subrange(t, t + 2)[1] == ops[m].1[t + 1]);
    assert(ops[m].0 + ops[m].1.len() <= d.len());
    lemma_read_u16_at(d, ops[m].0 + t, x, e);
}

/// A 32-bit field that a write (not the archive header) put in place reads back.
proof fn lemma_op_u32(
    files: Seq<(Seq<char>, Seq<u8>)>,
    aligns: Seq<usize>,
    e: Endian,
    m: int,
    t: int,
    x: u32,
)
    requires
        spec_layout_fits(files, aligns),
        aligns_pow2(aligns),
        spec_data_in_archive(files, aligns, e),
        0 <= m < 4 * files.len() + 2,
        0 <= t,
        t + 4 <= spec_write_ops(files, aligns, e)[m].1.len(),
        spec_write_ops(files, aligns, e)[m].1.subrange(t, t + 4) == spec_u32_bytes(x, e),
    ensures
        spec_read_u32(spec_sarc_binary(files, aligns, e), spec_write_ops(files, aligns, e)[m].0 + t, e)
            == x,
{
    let ops = spec_write_ops(files, aligns, e);
    let d = spec_sarc_binary(files, aligns, e);
    lemma_image(files, aligns, e);
    lemma_body_ordered(files, aligns, e);
    assert(ops.take(4 * files.len() + 2int)[m] == ops[m]);
    assert(d[ops[m].0 + t] == ops[m].1[t]);
    assert(d[ops[m].0 + (t + 1)] == ops[m].1[t + 1]);
    assert(d[ops[m].0 + (t + 2)] == ops[m].1[t + 2]);
    assert(d[ops[m].0 + (t + 3)] == ops[m].1[t + 3]);
    assert(ops[m].1.subrange(t, t + 4)[0] == ops[m].1[t]);
    assert(ops[m].1.subrange(t, t + 4)[1] == ops[m].1[t + 1]);
    assert(ops[m].1.subrange(t, t + 4)[2] == ops[m].1[t + 2]);
    assert(ops[m].1.subrange(t, t + 4)[3] == ops[m].1[t + 3]);
    assert(ops[m].0 + ops[m].1.len() <= d.len());
    lemma_read_u32_at(d, ops[m].0 + t, x, e);
}

/// The archive header reads back.
proof fn lemma_archive_header_reads(files: Seq<(Seq<char>, Seq<u8>)>, aligns: Seq<usize>, e: Endian)
    requires
        spec_layout_fits(files, aligns),
        aligns_pow2(aligns),
        spec_data_in_archive(files, aligns, e),
    ensures
        ({
            let d = spec_sarc_binary(files, aligns, e);
            &&& !crate::yaz0::spec_has_magic(d)
            &&& d.len() >= 0x28 + 16 * files.len()
            &&& spec_bom(d) == Some(e)
            &&& spec_read_u16(d, 0x10, e) == 0x100
            &&& spec_read_u16(d, 4, e) == 0x14
            &&& spec_read_u32(d, 0xC, e) == spec_data_start(files, aligns)
        }),
{
    let n = files.len() as int;
    let ops = spec_write_ops(files, aligns, e);
    let d = spec_sarc_binary(files, aligns, e);
    lemma_image(files, aligns, e);
    lemma_field_bytes(e);
    lemma_names(files, aligns, n);
    lemma_data(files, aligns, 0);
    lemma_monotone(files, aligns, 0, n);
    assert(spec_prefix_fits(files, aligns, n));
    let ds = spec_data_start(files, aligns);
    let fs = spec_abs_end(files, aligns, n);
    assert(ops[4 * n + 2] == spec_write_op(files, aligns, e, 4 * n + 2));
    let hdr = spec_sarc_header(fs as u32, ds as u32, e);
    assert(ops[4 * n + 2].1 == hdr);
    assert(d[0] == ops[4 * n + 2].1[0]);
    assert(hdr[0] == sarc_magic()[0]);
    assert(d[6] == ops[4 * n + 2].1[6] && d[7] == ops[4 * n + 2].1[7]);
    assert(hdr[6int + 0] == spec_bom_bytes(e)[0] && hdr[6int + 1] == spec_bom_bytes(e)[1]);
    assert(d[0x10] == ops[4 * n + 2].1[0x10] && d[0x11] == ops[4 * n + 2].1[0x11]);
    assert(hdr[0x10int + 0] == spec_u16_bytes(0x100, e)[0]);
    assert(hdr[0x10int + 1] == spec_u16_bytes(0x100, e)[1]);
    lemma_read_u16_at(d, 0x10, 0x100, e);
    assert(d[4] == ops[4 * n + 2].1[4] && d[5] == ops[4 * n + 2].1[5]);
    assert(hdr[4int + 0] == spec_u16_bytes(0x14, e)[0]);
    assert(hdr[4int + 1] == spec_u16_bytes(0x14, e)[1]);
    lemma_read_u16_at(d, 4, 0x14, e);
    assert(d[0xC] == ops[4 * n + 2].1[0xC] && d[0xD] == ops[4 * n + 2].1[0xD]);
    assert(d[0xE] == ops[4 * n + 2].1[0xE] && d[0xF] == ops[4 * n + 2].1[0xF]);
    assert(hdr[0xCint + 0] == spec_u32_bytes(ds as u32, e)[0]);
    assert(hdr[0xCint + 1] == spec_u32_bytes(ds as u32, e)[1]);
    assert(hdr[0xCint + 2] == spec_u32_bytes(ds as u32, e)[2]);
    assert(hdr[0xCint + 3] == spec_u32_bytes(ds as u32, e)[3]);
    lemma_read_u32_at(d, 0xC, ds as u32, e);
    assert(spec_bom(d) == Some(e));
}


/// The headers read back: an uncompressed archive in the writer's byte
/// order, with its file count, hash multiplier and data start.
proof fn lemma_header_reads(files: Seq<(Seq<char>, Seq<u8>)>, aligns: Seq<usize>, e: Endian)
    requires
        spec_layout_fits(files, aligns),
        aligns_pow2(aligns),
        files.len() < 0x4000,
        spec_data_in_archive(files, aligns, e),
    ensures
        ({
            let d = spec_sarc_binary(files, aligns, e);
            &&& !crate::yaz0::spec_has_magic(d)
            &&& spec_sarc_fault(d) is None
            &&& spec_bom(d) == Some(e)
            &&& spec_num_files_of(d) == files.len()
            &&& spec_hash_multiplier_of(d) == 0x65
            &&& spec_data_offset_of(d) == spec_data_start(files, aligns)
        }),
{
    let n = files.len() as int;
    let ops = spec_write_ops(files, aligns, e);
    let d = spec_sarc_binary(files, aligns, e);
    lemma_archive_header_reads(files, aligns, e);
    lemma_lengths(files, aligns, e);
    lemma_field_bytes(e);
    lemma_names(files, aligns, n);
    lemma_data(files, aligns, 0);
    assert(ops[0] == spec_write_op(files, aligns, e, 0));
    assert(ops[n + 1] == spec_write_op(files, aligns, e, n + 1));
    let fat = spec_fat_header(n as u16, e);
    let fnt = spec_fnt_header(e);
    assert(ops[0].1 == fat && ops[0].0 == 0x14);
    assert(ops[n + 1].1 == fnt && ops[n + 1].0 == 0x20 + 16 * n);
    assert(fat.subrange(4, 6) =~= spec_u16_bytes(0x0C, e));
    lemma_op_u16(files, aligns, e, 0, 4, 0x0C);
    assert(fat.subrange(6, 8) =~= spec_u16_bytes(n as u16, e));
    lemma_op_u16(files, aligns, e, 0, 6, n as u16);
    assert(fat.subrange(8, 12) =~= spec_u32_bytes(0x65, e));
    lemma_op_u32(files, aligns, e, 0, 8, 0x65);
    assert(fnt.subrange(4, 6) =~= spec_u16_bytes(8, e));
    lemma_op_u16(files, aligns, e, n + 1, 4, 8);
    assert(spec_prefix_fits(files, aligns, n));
    lemma_monotone(files, aligns, 0, n);
}

/// The bits of a name reference: the flag in the top byte, the offset in
/// 4-byte units below it.
proof fn lemma_name_ref_bits(r: u32)
    requires
        r < 0x4000000,
        r & 3 == 0,
    ensures
        (0x1000000u32 | (r / 4)) != 0,
        (0x1000000u32 | (r / 4)) % 0x1000000 == r / 4,
        (r / 4) * 4 == r,
{
    assert(r < 0x4000000 && r & 3 == 0 ==> (0x1000000u32 | (r / 4)) != 0 && (0x1000000u32 | (r
        / 4)) % 0x1000000 == r / 4 && (r / 4) * 4 == r) by (bit_vector);
}

/// The fields of entry `i` read back as written.
proof fn lemma_entry_fields_read(
    files: Seq<(Seq<char>, Seq<u8>)>,
    aligns: Seq<usize>,
    e: Endian,
    i: int,
)
    requires
        spec_layout_fits(files, aligns),
        aligns_pow2(aligns),
        files.len() < 0x4000,
        spec_data_in_archive(files, aligns, e),
        0 <= i < files.len(),
    ensures
        ({
            let d = spec_sarc_binary(files, aligns, e);
            let r = spec_name_ref(files, i) as u32;
            let begin = spec_rel_begin(files, aligns, i);
            &&& spec_entry_of(d, i, 0) == file_hash(files[i].0)
            &&& spec_entry_of(d, i, 1) == 0x1000000u32 | (r / 4)
            &&& spec_entry_of(d, i, 2) == begin as u32
            &&& spec_entry_of(d, i, 3) == (begin + files[i].1.len()) as u32
        }),
{
    let n = files.len() as int;
    let ops = spec_write_ops(files, aligns, e);
    lemma_header_reads(files, aligns, e);
    lemma_lengths(files, aligns, e);
    assert(ops[i + 1] == spec_write_op(files, aligns, e, i + 1));
    let r = spec_name_ref(files, i) as u32;
    let begin = spec_rel_begin(files, aligns, i);
    let end = begin + files[i].1.len();
    let h = file_hash(files[i].0);
    let en = spec_entry_fields(h, r, begin as u32, end as u32, e);
    assert(ops[i + 1] == (0x20 + 16 * i, en));
    assert(en.subrange(0, 4) =~= spec_u32_bytes(h, e));
    lemma_op_u32(files, aligns, e, i + 1, 0, h);
    assert(en.subrange(4, 8) =~= spec_u32_bytes(0x1000000u32 | (r / 4), e));
    lemma_op_u32(files, aligns, e, i + 1, 4, 0x1000000u32 | (r / 4));
    assert(en.subrange(8, 12) =~= spec_u32_bytes(begin as u32, e));
    lemma_op_u32(files, aligns, e, i + 1, 8, begin as u32);
    assert(en.subrange(12, 16) =~= spec_u32_bytes(end as u32, e));
    lemma_op_u32(files, aligns, e, i + 1, 12, end as u32);
}

/// Entry `i` reads back: the name's hash, a reference to the name, and the
/// data's place relative to the data start, within the archive.
proof fn lemma_entry_reads(files: Seq<(Seq<char>, Seq<u8>)>, aligns: Seq<usize>, e: Endian, i: int)
    requires
        spec_layout_fits(files, aligns),
        aligns_pow2(aligns),
        files.len() < 0x4000,
        spec_data_in_archive(files, aligns, e),
        spec_name_ref(files, files.len() as int) < 0x4000000,
        0 <= i < files.len(),
    ensures
        ({
            let d = spec_sarc_binary(files, aligns, e);
            &&& spec_entry_of(d, i, 0) == file_hash(files[i].0)
            &&& spec_entry_of(d, i, 1) != 0
            &&& spec_entry_of(d, i, 2) == spec_rel_begin(files, aligns, i)
            &&& spec_entry_of(d, i, 3) == spec_rel_end(files, aligns, i + 1)
            &&& spec_name_offset_of(d, i) == spec_name_pos(files, i)
            &&& spec_entry_ok_of(d, i)
        }),
{
    let n = files.len() as int;
    let d = spec_sarc_binary(files, aligns, e);
    lemma_header_reads(files, aligns, e);
    lemma_entry_fields_read(files, aligns, e, i);
    lemma_names(files, aligns, i);
    lemma_names(files, aligns, n);
    lemma_monotone(files, aligns, i, n);
    lemma_monotone(files, aligns, i + 1, n);
    lemma_data(files, aligns, i);
    lemma_data(files, aligns, i + 1);
    lemma_data(files, aligns, n);
    lemma_image(files, aligns, e);
    assert(spec_prefix_fits(files, aligns, i));
    assert(spec_prefix_fits(files, aligns, i + 1));
    lemma_name_ref_bits(spec_name_ref(files, i) as u32);
}

/// File `i` reads back: its name up to a NUL, as UTF-8, and its data.
proof fn lemma_file_reads(files: Seq<(Seq<char>, Seq<u8>)>, aligns: Seq<usize>, e: Endian, i: int)
    requires
        spec_layout_fits(files, aligns),
        aligns_pow2(aligns),
        files.len() < 0x4000,
        spec_data_in_archive(files, aligns, e),
        spec_name_ref(files, files.len() as int) < 0x4000000,
        forall|k: int, j: int|
            0 <= k < files.len() && 0 <= j < name_bytes(files, k).len() ==> #[trigger] name_bytes(
                files,
                k,
            )[j] != 0,
        0 <= i < files.len(),
    ensures
        ({
            let d = spec_sarc_binary(files, aligns, e);
            &&& spec_file_ok_of(d, i)
            &&& spec_file_name_of(d, i) == Some(name_bytes(files, i))
            &&& spec_file_data_of(d, i) == files[i].1
        }),
{
    let n = files.len() as int;
    let ops = spec_write_ops(files, aligns, e);
    let d = spec_sarc_binary(files, aligns, e);
    lemma_header_reads(files, aligns, e);
    lemma_entry_reads(files, aligns, e, i);
    lemma_data(files, aligns, i);
    lemma_data(files, aligns, i + 1);
    lemma_image(files, aligns, e);
    let nb = name_bytes(files, i);
    let p = spec_name_pos(files, i);
    let m = n + 2 + 2 * i;
    assert(ops[m] == spec_write_op(files, aligns, e, m));
    assert(ops[m + 1] == spec_write_op(files, aligns, e, m + 1));
    assert((m - n - 2) / 2 == i && (m - n - 2) % 2 == 0);
    assert((m + 1 - n - 2) / 2 == i && (m + 1 - n - 2) % 2 == 1);
    assert(ops[m] == (p, nb));
    assert(ops[m + 1] == (p + nb.len(), seq![0u8]));
    assert(ops[m + 1].1[0] == 0);
    assert(d[p + nb.len()] == 0) by {
        assert(d[ops[m + 1].0 + 0] == ops[m + 1].1[0]);
    }
    assert(p + nb.len() + 1 <= d.len()) by {
        assert(ops[m + 1].1.len() > 0);
    }
    assert forall|j: int| p <= j < p + nb.len() implies d[j] != 0 by {
        assert(d[ops[m].0 + (j - p)] == ops[m].1[j - p]);
        assert(nb[j - p] != 0);
    }
    lemma_find_null_after(d, p, p + nb.len());
    assert(d.subrange(p, p + nb.len()) =~= nb) by {
        assert forall|j: int| 0 <= j < nb.len() implies d.subrange(p, p + nb.len())[j] == nb[j] by {
            assert(d[ops[m].0 + j] == ops[m].1[j]);
        }
    }
    vstd::utf8::encode_utf8_valid_utf8(files[i].0);
    let k = 3 * n + 2 + i;
    assert(ops[k] == spec_write_op(files, aligns, e, k));
    let b = spec_abs_begin(files, aligns, i);
    assert(ops[k] == (b, files[i].1));
    assert(d.subrange(b, b + files[i].1.len()) =~= files[i].1) by {
        assert forall|j: int| 0 <= j < files[i].1.len() implies d.subrange(
            b,
            b + files[i].1.len(),
        )[j] == files[i].1[j] by {
            assert(d[ops[k].0 + j] == ops[k].1[j]);
        }
    }
}

/// File `i` reads back in full.
proof fn lemma_one_file(files: Seq<(Seq<char>, Seq<u8>)>, aligns: Seq<usize>, e: Endian, i: int)
    requires
        spec_layout_fits(files, aligns),
        aligns_pow2(aligns),
        files.len() < 0x4000,
        spec_name_ref(files, files.len() as int) < 0x4000000,
        forall|k: int, j: int|
            0 <= k < files.len() && 0 <= j < name_bytes(files, k).len() ==> #[trigger] name_bytes(
                files,
                k,
            )[j] != 0,
        spec_data_in_archive(files, aligns, e),
        0 <= i < files.len(),
    ensures
        ({
            let d = spec_sarc_binary(files, aligns, e);
            &&& spec_entry_ok_of(d, i)
            &&& spec_entry_of(d, i, 0) == file_hash(files[i].0)
            &&& spec_file_ok_of(d, i)
            &&& spec_file_name_of(d, i) == Some(name_bytes(files, i))
            &&& spec_file_data_of(d, i) == files[i].1
        }),
{
    lemma_entry_reads(files, aligns, e, i);
    lemma_file_reads(files, aligns, e, i);
}

/// Reading back what the writer lays out gives the files back: the bytes
/// are an uncompressed archive in the given byte order, whose entries lie
/// within it in order of name hash, and whose file `i` has the name, data
/// and name hash of the `i`-th file written. This holds when the
/// alignments are powers of two, fewer than 0x4000 files are written, the
/// name table is under 64 MiB, no name holds a NUL, and every file's data
/// lies inside the written archive (data written nowhere does not extend
/// the archive, so an empty last file could start beyond its end).
pub proof fn sarc_layout_reads_back(files: Seq<(Seq<char>, Seq<u8>)>, aligns: Seq<usize>, e: Endian)
    requires
        spec_layout_fits(files, aligns),
        aligns_pow2(aligns),
        files_sorted(files),
        files.len() < 0x4000,
        spec_name_ref(files, files.len() as int) < 0x4000000,
        forall|k: int, j: int|
            0 <= k < files.len() && 0 <= j < name_bytes(files, k).len() ==> #[trigger] name_bytes(
                files,
                k,
            )[j] != 0,
        spec_data_in_archive(files, aligns, e),
    ensures
        spec_reads_back(spec_sarc_binary(files, aligns, e), files, e),
{
    let d = spec_sarc_binary(files, aligns, e);
    lemma_header_reads(files, aligns, e);
    assert forall|i: int| 0 <= i < spec_num_files_of(d) implies #[trigger] spec_entry_ok_of(d, i) by {
        lemma_one_file(files, aligns, e, i);
    }
    assert forall|i: int, j: int| 0 <= i < j < spec_num_files_of(d) implies spec_entry_of(d, i, 0)
        <= spec_entry_of(d, j, 0) by {
        lemma_one_file(files, aligns, e, i);
        lemma_one_file(files, aligns, e, j);
    }
    assert forall|i: int| 0 <= i < files.len() implies #[trigger] spec_file_reads_back(d, files, i) by {
        lemma_one_file(files, aligns, e, i);
    }
}


/// `pow2(k)` is a power of two in bit form, for `k < 64`.
proof fn lemma_pow2_mask(k: nat)
    requires
        k < 64,
    ensures
        is_pow2_mask(pow2(k) as int),
    decreases k,
{
    if k == 0 {
        vstd::arithmetic::power2::lemma2_to64();
        assert(1u64 & 0u64 == 0) by (bit_vector);
    } else {
        lemma_pow2_mask((k - 1) as nat);
        vstd::arithmetic::power2::lemma_pow2_unfold(k);
        vstd::arithmetic::power2::lemma_pow2_strictly_increases(k, 64);
        vstd::arithmetic::power2::lemma2_to64_rest();
        let x = pow2((k - 1) as nat) as u64;
        assert(x != 0 && x & ((x - 1) as u64) == 0 && x < 0x8000_0000_0000_0000 ==> ((2 * x) as u64)
            & ((2 * x - 1) as u64) == 0) by (bit_vector);
    }
}

/// One step of an alignment computation keeps powers of two.
proof fn lemma_lcm_step_pow2(acc: Option<nat>, b: nat)
    requires
        acc matches Some(a) ==> is_pow2_mask(a as int),
        is_pow2_mask(b as int),
    ensures
        lcm_step(acc, b) matches Some(c) ==> is_pow2_mask(c as int) && c >= b && (acc matches Some(
            a,
        ) ==> c >= a),
{
    if let Some(a) = acc {
        lemma_lcm_pow2_mask(a as int, b as int);
    }
}

/// Every value in an alignment table is a power of two.
pub open spec fn map_values_valid(map: Seq<(Seq<char>, usize)>) -> bool {
    forall|i: int| 0 <= i < map.len() ==> spec_is_valid_alignment(#[trigger] map[i].1)
}

proof fn lemma_map_insert_valid(map: Seq<(Seq<char>, usize)>, key: Seq<char>, v: usize)
    requires
        map_values_valid(map),
        spec_is_valid_alignment(v),
    ensures
        map_values_valid(spec_map_insert(map, key, v)),
{
    let m2 = spec_map_insert(map, key, v);
    assert forall|i: int| 0 <= i < m2.len() implies spec_is_valid_alignment(#[trigger] m2[i].1) by {
        if i < map.len() {
            if m2[i].1 != map[i].1 {
                assert(m2[i].1 == v);
            }
        }
    }
}

proof fn lemma_map_get_valid(map: Seq<(Seq<char>, usize)>, ext: Seq<u8>, i: int)
    requires
        map_values_valid(map),
    ensures
        spec_map_get_from(map, ext, i) matches Some(r) ==> spec_is_valid_alignment(r),
    decreases map.len() - i,
{
    if 0 <= i < map.len() {
        lemma_map_get_valid(map, ext, i + 1);
    }
}

/// The default requirements are powers of two.
proof fn lemma_defaults_valid(map: Seq<(Seq<char>, usize)>, e: Endian)
    requires
        map_values_valid(map),
    ensures
        map_values_valid(spec_default_alignments(map, e)),
{
    reveal(spec_default_alignments);
    assert(spec_is_valid_alignment(8usize)) by (bit_vector);
    assert(spec_is_valid_alignment(0x80usize)) by (bit_vector);
    assert(spec_is_valid_alignment(0x1000usize)) by (bit_vector);
    assert(spec_is_valid_alignment(0x2000usize)) by (bit_vector);
    let m1 = spec_map_insert(map, "ksky"@, 8);
    lemma_map_insert_valid(map, "ksky"@, 8);
    let m2 = spec_map_insert(m1, "ksky"@, 8);
    lemma_map_insert_valid(m1, "ksky"@, 8);
    let m3 = spec_map_insert(m2, "bksky"@, 8);
    lemma_map_insert_valid(m2, "bksky"@, 8);
    let m4 = spec_map_insert(m3, "gtx"@, 0x2000);
    lemma_map_insert_valid(m3, "gtx"@, 0x2000);
    let m5 = spec_map_insert(m4, "sharcb"@, 0x1000);
    lemma_map_insert_valid(m4, "sharcb"@, 0x1000);
    let m6 = spec_map_insert(m5, "sharc"@, 0x1000);
    lemma_map_insert_valid(m5, "sharc"@, 0x1000);
    let m7 = spec_map_insert(m6, "baglmf"@, 0x80);
    lemma_map_insert_valid(m6, "baglmf"@, 0x80);
    let v: usize = match e {
        Endian::Big => 0x2000,
        Endian::Little => 0x1000,
    };
    lemma_map_insert_valid(m7, "bffnt"@, v);
}

/// A file's alignment is a power of two when the minimum and the table's
/// requirements are, and, for big-endian archives, what a `FLIM` texture
/// asks for is.
proof fn lemma_file_alignment_pow2(
    min_alignment: usize,
    map: Seq<(Seq<char>, usize)>,
    legacy: bool,
    e: Endian,
    name: Seq<u8>,
    data: Seq<u8>,
)
    requires
        spec_is_valid_alignment(min_alignment),
        map_values_valid(map),
        e == Endian::Big ==> is_pow2_mask(spec_bflim_alignment(data) as int),
    ensures
        spec_file_alignment(min_alignment, map, legacy, e, name, data) matches Some(a)
            ==> is_pow2_mask(a as int) && a <= usize::MAX && a >= min_alignment && (spec_map_get(
            map,
            super::write::spec_ext(name),
        ) matches Some(r) ==> a >= r),
{
    reveal(spec_file_alignment);
    lemma_valid_alignment_mask(min_alignment);
    lemma_map_get_valid(map, super::write::spec_ext(name), 0);
    let a0 = Some(min_alignment as nat);
    let a1 = match spec_map_get(map, super::write::spec_ext(name)) {
        Some(r) => {
            lemma_valid_alignment_mask(r);
            lemma_lcm_step_pow2(a0, r as nat);
            lcm_step(a0, r as nat)
        },
        None => a0,
    };
    assert(is_pow2_mask(0x2000)) by {
        assert(0x2000u64 & 0x1FFFu64 == 0) by (bit_vector);
    }
    lemma_lcm_step_pow2(a1, 0x2000);
    let a2 = if legacy && super::write::spec_is_file_sarc(data) {
        lcm_step(a1, 0x2000)
    } else {
        a1
    };
    match spec_new_binary_alignment(data) {
        Some(b) => {
            if data.len() > 0x20 && b != 1 {
                lemma_pow2_mask(data[0xE] as nat);
            } else {
                assert(1u64 & 0u64 == 0) by (bit_vector);
            }
            lemma_lcm_step_pow2(a2, b);
            let a3 = lcm_step(a2, b);
            if e == Endian::Big {
                lemma_lcm_step_pow2(a3, spec_bflim_alignment(data));
            }
        },
        None => {},
    }
}

/// What a writer writes reads back as its files, under the conditions of
/// `SarcWriter::spec_reads_back_ok`, for a writer whose minimum alignment
/// and table requirements are powers of two and whose files are ordered by
/// name hash.
pub proof fn writer_reads_back(w: &SarcWriter)
    requires
        spec_is_valid_alignment(w.spec_min_alignment()),
        map_values_valid(w.spec_alignment_map()),
        files_sorted(w.spec_files()),
        w.spec_can_write(),
        w.spec_reads_back_ok(),
    ensures
        spec_reads_back(w.spec_to_binary(), w.spec_files(), w.spec_endian()),
{
    let files = w.spec_files();
    let aligns = w.spec_write_alignments();
    let map = spec_default_alignments(w.spec_alignment_map(), w.spec_endian());
    lemma_defaults_valid(w.spec_alignment_map(), w.spec_endian());
    assert forall|k: int| 0 <= k < aligns.len() implies is_pow2_mask(#[trigger] aligns[k] as int) by {
        assert(w.spec_write_alignment(k) is Some);
        if w.spec_endian() == Endian::Big {
            assert(is_pow2_mask(spec_bflim_alignment(files[k].1) as int));
        }
        lemma_file_alignment_pow2(
            w.spec_min_alignment(),
            map,
            w.spec_legacy(),
            w.spec_endian(),
            super::write::str_bytes(files[k].0),
            files[k].1,
        );
    }
    sarc_layout_reads_back(files, aligns, w.spec_endian());
}

/// A multiple of a power of two in bit form is a multiple in numbers.
proof fn lemma_mask_multiple(x: u64, a: u64)
    requires
        is_pow2_mask(a as int),
        x & ((a - 1) as u64) == 0,
    ensures
        x % a == 0,
{
    let j = crate::util::lemma_mask_pow2(a);
    vstd::bits::lemma_u64_low_bits_mask_is_mod(x, j);
}

/// Where a writer puts the data of each file, the position in the archive
/// is a multiple of the minimum alignment and of the requirement that the
/// alignment table (with its defaults) holds for the file's extension, for
/// a writer whose minimum alignment and table requirements are powers of
/// two and, in a big-endian archive, whose `FLIM` textures ask for powers
/// of two.
pub proof fn written_data_is_aligned(w: &SarcWriter, k: int)
    requires
        spec_is_valid_alignment(w.spec_min_alignment()),
        map_values_valid(w.spec_alignment_map()),
        w.spec_can_write(),
        w.spec_endian() == Endian::Big ==> forall|j: int|
            0 <= j < w.spec_files().len() ==> is_pow2_mask(
                #[trigger] spec_bflim_alignment(w.spec_files()[j].1) as int,
            ),
        0 <= k < w.spec_files().len(),
    ensures
        spec_abs_begin(w.spec_files(), w.spec_write_alignments(), k) % (
        w.spec_min_alignment() as int) == 0,
        spec_map_get(
            spec_default_alignments(w.spec_alignment_map(), w.spec_endian()),
            super::write::spec_ext(super::write::str_bytes(w.spec_files()[k].0)),
        ) matches Some(r) ==> spec_abs_begin(w.spec_files(), w.spec_write_alignments(), k) % (
        r as int) == 0,
{
    let files = w.spec_files();
    let aligns = w.spec_write_alignments();
    let map = spec_default_alignments(w.spec_alignment_map(), w.spec_endian());
    let name = super::write::str_bytes(files[k].0);
    lemma_defaults_valid(w.spec_alignment_map(), w.spec_endian());
    assert(w.spec_write_alignment(k) is Some);
    lemma_file_alignment_pow2(
        w.spec_min_alignment(),
        map,
        w.spec_legacy(),
        w.spec_endian(),
        name,
        files[k].1,
    );
    let a = aligns[k] as int;
    assert(spec_file_fits(files, aligns, k));
    assert(spec_prefix_fits(files, aligns, k));
    let end = spec_abs_end(files, aligns, k);
    lemma_align_aligned(end, a);
    let b = spec_abs_begin(files, aligns, k);
    lemma_align_pos_bounds(end, a);
    let m = w.spec_min_alignment();
    lemma_valid_alignment_mask(m);
    lemma_aligned_coarser(b, m as int, a);
    lemma_mask_multiple(b as u64, m as u64);
    lemma_map_get_valid(map, super::write::spec_ext(name), 0);
    if let Some(r) = spec_map_get(map, super::write::spec_ext(name)) {
        lemma_valid_alignment_mask(r);
        lemma_aligned_coarser(b, r as int, a);
        lemma_mask_multiple(b as u64, r as u64);
    }
}

/// An alignment is valid exactly when it is a power of two: `2^k` for some
/// `k` below 64.
pub proof fn valid_alignment_is_pow2(a: usize)
    ensures
        spec_is_valid_alignment(a) <==> exists|k: nat| k < 64 && pow2(k) == a,
{
    lemma_valid_alignment_mask(a);
    if spec_is_valid_alignment(a) {
        let k = crate::util::lemma_mask_pow2(a as u64);
        assert(k < 64 && pow2(k) == a);
    }
    if exists|k: nat| k < 64 && pow2(k) == a {
        let k = choose|k: nat| k < 64 && pow2(k) == a;
        lemma_pow2_mask(k);
    }
}

proof fn lemma_get_other_from(
    map: Seq<(Seq<char>, usize)>,
    m2: Seq<(Seq<char>, usize)>,
    key: Seq<char>,
    ext: Seq<u8>,
    j: int,
)
    requires
        str_bytes(key) != ext,
        0 <= j,
        m2.len() >= map.len(),
        forall|k: int| 0 <= k < map.len() ==> (#[trigger] m2[k] == map[k] || (m2[k].0 == key
            && map[k].0 == key)),
        forall|k: int| map.len() <= k < m2.len() ==> #[trigger] m2[k].0 == key,
    ensures
        spec_map_get_from(m2, ext, j) == spec_map_get_from(map, ext, j),
    decreases m2.len() - j,
{
    if j < m2.len() {
        lemma_get_other_from(map, m2, key, ext, j + 1);
    }
}

/// Setting one extension's requirement leaves what the table gives for
/// every other extension as it was.
proof fn lemma_get_other(map: Seq<(Seq<char>, usize)>, key: Seq<char>, v: usize, ext: Seq<u8>)
    requires
        str_bytes(key) != ext,
    ensures
        spec_map_get(spec_map_insert(map, key, v), ext) == spec_map_get(map, ext),
{
    lemma_get_other_from(map, spec_map_insert(map, key, v), key, ext, 0);
}

proof fn lemma_bytes_differ(a: Seq<char>, b: Seq<char>)
    requires
        a != b,
    ensures
        str_bytes(a) != str_bytes(b),
{
    vstd::utf8::encode_utf8_decode_utf8(a);
    vstd::utf8::encode_utf8_decode_utf8(b);
}

/// The default alignment requirements that writing adds, as numbers: 8 for
/// `ksky` and `bksky`, 0x2000 for `gtx`, 0x1000 for `sharcb` and `sharc`,
/// 0x80 for `baglmf`, and for `bffnt` 0x2000 in a big-endian archive and
/// 0x1000 in a little-endian one, whatever the table held before.
pub proof fn default_alignment_table(map: Seq<(Seq<char>, usize)>, e: Endian)
    requires
        map_keys_unique(map),
    ensures
        spec_map_get(spec_default_alignments(map, e), str_bytes("ksky"@)) == Some(8usize),
        spec_map_get(spec_default_alignments(map, e), str_bytes("bksky"@)) == Some(8usize),
        spec_map_get(spec_default_alignments(map, e), str_bytes("gtx"@)) == Some(0x2000usize),
        spec_map_get(spec_default_alignments(map, e), str_bytes("sharcb"@)) == Some(0x1000usize),
        spec_map_get(spec_default_alignments(map, e), str_bytes("sharc"@)) == Some(0x1000usize),
        spec_map_get(spec_default_alignments(map, e), str_bytes("baglmf"@)) == Some(0x80usize),
        spec_map_get(spec_default_alignments(map, e), str_bytes("bffnt"@)) == Some(
            if e == Endian::Big {
                0x2000usize
            } else {
                0x1000usize
            },
        ),
{
    reveal(spec_default_alignments);
    reveal_strlit("ksky");
    reveal_strlit("bksky");
    reveal_strlit("gtx");
    reveal_strlit("sharcb");
    reveal_strlit("sharc");
    reveal_strlit("baglmf");
    reveal_strlit("bffnt");
    let ksky = "ksky"@;
    let bksky = "bksky"@;
    let gtx = "gtx"@;
    let sharcb = "sharcb"@;
    let sharc = "sharc"@;
    let baglmf = "baglmf"@;
    let bffnt = "bffnt"@;
    assert(ksky.len() == 4 && bksky.len() == 5 && gtx.len() == 3 && sharcb.len() == 6);
    assert(sharc.len() == 5 && baglmf.len() == 6 && bffnt.len() == 5);
    assert(ksky != bksky && ksky != gtx && ksky != sharcb && ksky != sharc && ksky != baglmf
        && ksky != bffnt);
    assert(bksky[0] != sharc[0] && bksky[1] != bffnt[1]);
    assert(bksky != gtx && bksky != sharcb && bksky != sharc && bksky != baglmf && bksky != bffnt);
    assert(gtx != sharcb && gtx != sharc && gtx != baglmf && gtx != bffnt);
    assert(sharcb[0] != baglmf[0]);
    assert(sharcb != sharc && sharcb != baglmf && sharcb != bffnt);
    assert(sharc[0] != bffnt[0]);
    assert(sharc != baglmf && sharc != bffnt);
    assert(baglmf != bffnt);
    let bv: usize = if e == Endian::Big {
        0x2000
    } else {
        0x1000
    };
    let m1 = spec_map_insert(map, ksky, 8);
    let m2 = spec_map_insert(m1, ksky, 8);
    let m3 = spec_map_insert(m2, bksky, 8);
    let m4 = spec_map_insert(m3, gtx, 0x2000);
    let m5 = spec_map_insert(m4, sharcb, 0x1000);
    let m6 = spec_map_insert(m5, sharc, 0x1000);
    let m7 = spec_map_insert(m6, baglmf, 0x80);
    let m8 = spec_map_insert(m7, bffnt, bv);
    assert(m8 == spec_default_alignments(map, e));
    added_alignment_is_found(map, ksky, 8);
    added_alignment_is_found(m1, ksky, 8);
    added_alignment_is_found(m2, bksky, 8);
    lemma_insert_keeps(m2, bksky, 8, ksky);
    added_alignment_is_found(m3, gtx, 0x2000);
    lemma_insert_keeps(m3, gtx, 0x2000, ksky);
    lemma_insert_keeps(m3, gtx, 0x2000, bksky);
    added_alignment_is_found(m4, sharcb, 0x1000);
    lemma_insert_keeps(m4, sharcb, 0x1000, ksky);
    lemma_insert_keeps(m4, sharcb, 0x1000, bksky);
    lemma_insert_keeps(m4, sharcb, 0x1000, gtx);
    added_alignment_is_found(m5, sharc, 0x1000);
    lemma_insert_keeps(m5, sharc, 0x1000, ksky);
    lemma_insert_keeps(m5, sharc, 0x1000, bksky);
    lemma_insert_keeps(m5, sharc, 0x1000, gtx);
    lemma_insert_keeps(m5, sharc, 0x1000, sharcb);
    added_alignment_is_found(m6, baglmf, 0x80);
    lemma_insert_keeps(m6, baglmf, 0x80, ksky);
    lemma_insert_keeps(m6, baglmf, 0x80, bksky);
    lemma_insert_keeps(m6, baglmf, 0x80, gtx);
    lemma_insert_keeps(m6, baglmf, 0x80, sharcb);
    lemma_insert_keeps(m6, baglmf, 0x80, sharc);
    added_alignment_is_found(m7, bffnt, bv);
    lemma_insert_keeps(m7, bffnt, bv, ksky);
    lemma_insert_keeps(m7, bffnt, bv, bksky);
    lemma_insert_keeps(m7, bffnt, bv, gtx);
    lemma_insert_keeps(m7, bffnt, bv, sharcb);
    lemma_insert_keeps(m7, bffnt, bv, sharc);
    lemma_insert_keeps(m7, bffnt, bv, baglmf);
}

proof fn lemma_insert_keeps(map: Seq<(Seq<char>, usize)>, key: Seq<char>, v: usize, other: Seq<char>)
    requires
        key != other,
    ensures
        spec_map_get(spec_map_insert(map, key, v), str_bytes(other)) == spec_map_get(
            map,
            str_bytes(other),
        ),
{
    lemma_bytes_differ(key, other);
    lemma_get_other(map, key, v, str_bytes(other));
}

/// Where a writer puts the data of a file whose extension has a default
/// requirement, the position in the archive is a multiple of it: 8 for
/// `ksky` and `bksky`, 0x2000 for `gtx`, 0x1000 for `sharcb` and `sharc`,
/// 0x80 for `baglmf`, and for `bffnt` 0x2000 in a big-endian archive and
/// 0x1000 in a little-endian one; under the conditions of
/// `written_data_is_aligned`.
pub proof fn written_data_meets_default_requirements(w: &SarcWriter, k: int)
    requires
        spec_is_valid_alignment(w.spec_min_alignment()),
        map_values_valid(w.spec_alignment_map()),
        map_keys_unique(w.spec_alignment_map()),
        w.spec_can_write(),
        w.spec_endian() == Endian::Big ==> forall|j: int|
            0 <= j < w.spec_files().len() ==> is_pow2_mask(
                #[trigger] spec_bflim_alignment(w.spec_files()[j].1) as int,
            ),
        0 <= k < w.spec_files().len(),
    ensures
        ({
            let ext = spec_ext(str_bytes(w.spec_files()[k].0));
            let b = spec_abs_begin(w.spec_files(), w.spec_write_alignments(), k);
            &&& ext == str_bytes("ksky"@) ==> b % 8 == 0
            &&& ext == str_bytes("bksky"@) ==> b % 8 == 0
            &&& ext == str_bytes("gtx"@) ==> b % 0x2000 == 0
            &&& ext == str_bytes("sharcb"@) ==> b % 0x1000 == 0
            &&& ext == str_bytes("sharc"@) ==> b % 0x1000 == 0
            &&& ext == str_bytes("baglmf"@) ==> b % 0x80 == 0
            &&& ext == str_bytes("bffnt"@) ==> b % (if w.spec_endian() == Endian::Big {
                0x2000int
            } else {
                0x1000int
            }) == 0
        }),
{
    written_data_is_aligned(w, k);
    default_alignment_table(w.spec_alignment_map(), w.spec_endian());
}
} // verus!
