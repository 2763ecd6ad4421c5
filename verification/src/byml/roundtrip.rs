//! What reading gives back of a written document.
use vstd::prelude::*;
use vstd::utf8::encode_utf8;
use crate::Endian;
use crate::util::{
    lemma_read_u16_at, lemma_read_u32_at, lemma_u24_roundtrip, spec_read_u16, spec_read_u32,
    spec_u16_bytes, spec_u24_bytes, spec_u32_bytes,
};
use super::reader::{
    spec_array_from, spec_child, spec_container, spec_get_string, spec_hash_from,
    spec_hash_insert, spec_read_bytes, spec_read_u24, spec_read_u64, spec_string_table,
    spec_value_node, values_offset, spec_byml_read, spec_document, Read, ReadCtx,
};
use super::writer::{
    enc, entries_size, entry_data, entry_heads, has_key, has_string, head_len, index_in, item_data,
    item_slots, items_size, lemma_child_strings, lemma_entries_size_mono, lemma_entry_data_len,
    lemma_entry_heads_len, lemma_entry_strings, lemma_enc_len, lemma_item_data_len,
    lemma_item_slots_len, lemma_items_size_mono, lemma_strs_len_mono, lemma_table_offsets_len,
    lemma_table_strs_len, counts_fit, is_inline, node_size, pad4, slot_value, spec_u64_bytes,
    strs_len, table_bytes, table_offsets, table_size, table_strs, table_unpadded, type_bytes,
    type_of, zeros, WCtx, doc_bytes, header_bytes, root_offset, table_space, tables_of,
    spec_writable, spec_written, lemma_doc_len, lemma_table_len,
};
use super::reader::BymlFault;
use super::{ByNode, Byml, NodeType, spec_node_tag, spec_tag_type};
use crate::Result;
use crate::yaz0::spec_payload;

verus! {

/// `b` stands at `off` in `d`.
pub open spec fn placed(d: Seq<u8>, off: int, b: Seq<u8>) -> bool {
    0 <= off && off + b.len() <= d.len() && d.subrange(off, off + b.len()) == b
}

/// A string that reads back as written: no NUL byte in its UTF-8 form.
pub open spec fn plain(s: Seq<char>) -> bool {
    forall|i: int| 0 <= i < encode_utf8(s).len() ==> encode_utf8(s)[i] != 0
}

proof fn lemma_placed_split(d: Seq<u8>, off: int, a: Seq<u8>, b: Seq<u8>)
    requires
        placed(d, off, a + b),
    ensures
        placed(d, off, a),
        placed(d, off + a.len(), b),
{
    let ab = a + b;
    assert forall|k: int| 0 <= k < a.len() implies d[off + k] == a[k] by {
        assert(d.subrange(off, off + ab.len())[k] == ab[k]);
    }
    assert forall|k: int| 0 <= k < b.len() implies d[off + a.len() + k] == b[k] by {
        assert(d.subrange(off, off + ab.len())[a.len() + k] == ab[a.len() + k]);
    }
    assert(d.subrange(off, off + a.len()) =~= a);
    assert(d.subrange(off + a.len(), off + a.len() + b.len()) =~= b);
}

proof fn lemma_placed_byte(d: Seq<u8>, off: int, b: Seq<u8>, k: int)
    requires
        placed(d, off, b),
        0 <= k < b.len(),
    ensures
        d[off + k] == b[k],
{
    assert(d.subrange(off, off + b.len())[k] == b[k]);
}

proof fn lemma_u32_at(d: Seq<u8>, off: int, x: u32, e: Endian)
    requires
        placed(d, off, spec_u32_bytes(x, e)),
    ensures
        spec_read_u32(d, off, e) == x,
{
    let b = spec_u32_bytes(x, e);
    lemma_placed_byte(d, off, b, 0);
    lemma_placed_byte(d, off, b, 1);
    lemma_placed_byte(d, off, b, 2);
    lemma_placed_byte(d, off, b, 3);
    lemma_read_u32_at(d, off, x, e);
}

proof fn lemma_u24_at(d: Seq<u8>, off: int, x: u32, e: Endian)
    requires
        x < 0x100_0000,
        placed(d, off, spec_u24_bytes(x, e)),
    ensures
        spec_read_u24(d, off, e) == x,
{
    let b = spec_u24_bytes(x, e);
    lemma_placed_byte(d, off, b, 0);
    lemma_placed_byte(d, off, b, 1);
    lemma_placed_byte(d, off, b, 2);
    lemma_u24_roundtrip(x, e);
}

proof fn lemma_u64_at(d: Seq<u8>, off: int, x: u64, e: Endian)
    requires
        placed(d, off, spec_u64_bytes(x, e)),
    ensures
        spec_read_u64(d, off, e) == x,
{
    let hi = (x / 0x1_0000_0000) as u32;
    let lo = (x % 0x1_0000_0000) as u32;
    match e {
        Endian::Big => {
            lemma_placed_split(d, off, spec_u32_bytes(hi, e), spec_u32_bytes(lo, e));
            lemma_u32_at(d, off, hi, e);
            lemma_u32_at(d, off + 4, lo, e);
        },
        Endian::Little => {
            lemma_placed_split(d, off, spec_u32_bytes(lo, e), spec_u32_bytes(hi, e));
            lemma_u32_at(d, off, lo, e);
            lemma_u32_at(d, off + 4, hi, e);
        },
    }
    assert(x == (x / 0x1_0000_0000) * 0x1_0000_0000 + x % 0x1_0000_0000) by (nonlinear_arith);
}

proof fn lemma_read_plain(d: Seq<u8>, p: int, b: Seq<u8>, k: int, m: nat)
    requires
        forall|i: int| 0 <= i < b.len() ==> b[i] != 0,
        placed(d, p, b.push(0)),
        0 <= k <= b.len(),
        b.len() <= m,
    ensures
        spec_read_bytes(d, p + k, m, b.subrange(0, k)) == Read::Value(b),
    decreases b.len() - k,
{
    let bz = b.push(0);
    lemma_placed_byte(d, p, bz, k);
    if k < b.len() {
        assert(bz[k] == b[k]);
        assert(b.subrange(0, k).push(d[p + k]) =~= b.subrange(0, k + 1));
        lemma_read_plain(d, p, b, k + 1, m);
    } else {
        assert(bz[k] == 0);
        assert(b.subrange(0, k) =~= b);
    }
}

proof fn lemma_table_offsets_at(d: Seq<u8>, off: int, t: Seq<Seq<char>>, k: int, e: Endian, i: int)
    requires
        placed(d, off, table_offsets(t, k, e)),
        0 <= i < k <= t.len() + 1,
    ensures
        placed(d, off + 4 * i, spec_u32_bytes((4 + 4 * (t.len() + 1) + strs_len(t, i)) as u32, e)),
    decreases k,
{
    lemma_table_offsets_len(t, k - 1, e);
    lemma_placed_split(
        d,
        off,
        table_offsets(t, k - 1, e),
        spec_u32_bytes((4 + 4 * (t.len() + 1) + strs_len(t, k - 1)) as u32, e),
    );
    if i < k - 1 {
        lemma_table_offsets_at(d, off, t, k - 1, e, i);
    }
}

proof fn lemma_table_strs_at(d: Seq<u8>, off: int, t: Seq<Seq<char>>, k: int, i: int)
    requires
        placed(d, off, table_strs(t, k)),
        0 <= i < k <= t.len(),
    ensures
        placed(d, off + strs_len(t, i), encode_utf8(t[i]).push(0)),
    decreases k,
{
    lemma_table_strs_len(t, k - 1);
    lemma_placed_split(d, off, table_strs(t, k - 1), encode_utf8(t[k - 1]).push(0));
    if i < k - 1 {
        lemma_table_strs_at(d, off, t, k - 1, i);
    }
}

proof fn lemma_tag_type(t: NodeType)
    ensures
        spec_tag_type(spec_node_tag(t)) == Some(t),
{
}

/// The parts of a string table as they stand in the data.
proof fn lemma_table_parts(d: Seq<u8>, toff: int, t: Seq<Seq<char>>, e: Endian)
    requires
        placed(d, toff, table_bytes(t, e)),
    ensures
        d[toff] == 0xC2,
        placed(d, toff + 1, spec_u24_bytes(t.len() as u32, e)),
        placed(d, toff + 4, table_offsets(t, t.len() + 1 as int, e)),
        placed(d, toff + 4 + 4 * (t.len() + 1), table_strs(t, t.len() as int)),
{
    let a = seq![0xC2u8];
    let b = spec_u24_bytes(t.len() as u32, e);
    let c = table_offsets(t, t.len() + 1 as int, e);
    let s = table_strs(t, t.len() as int);
    let z = super::writer::zeros(super::writer::pad4(table_unpadded(t)));
    lemma_table_offsets_len(t, t.len() + 1 as int, e);
    assert(table_bytes(t, e) == a + b + c + s + z);
    lemma_placed_split(d, toff, a + b + c + s, z);
    lemma_placed_split(d, toff, a + b + c, s);
    lemma_placed_split(d, toff, a + b, c);
    lemma_placed_split(d, toff, a, b);
    lemma_placed_byte(d, toff, a, 0);
}

/// A string table reads back with its offset and count.
pub proof fn lemma_table_read(d: Seq<u8>, toff: int, t: Seq<Seq<char>>, e: Endian)
    requires
        placed(d, toff, table_bytes(t, e)),
        0 < t.len() < 0x100_0000,
        0 < toff,
        toff + table_size(t) <= u32::MAX,
    ensures
        spec_string_table(d, e, toff as u32) == Read::Value((toff as u32, t.len() as u32)),
{
    lemma_table_parts(d, toff, t, e);
    lemma_u24_at(d, toff + 1, t.len() as u32, e);
    lemma_tag_type(NodeType::StringTable);
}

/// Each string of a table reads back.
pub proof fn lemma_table_get(d: Seq<u8>, toff: int, t: Seq<Seq<char>>, e: Endian, i: int)
    requires
        placed(d, toff, table_bytes(t, e)),
        0 < t.len() < 0x100_0000,
        toff + table_size(t) <= u32::MAX,
        0 <= i < t.len(),
        plain(t[i]),
    ensures
        spec_get_string(d, e, (toff as u32, t.len() as u32), i as u32) == Read::Value(t[i]),
{
    lemma_table_parts(d, toff, t, e);
    let n = t.len() as int;
    lemma_table_offsets_at(d, toff + 4, t, n + 1, e, i);
    lemma_table_offsets_at(d, toff + 4, t, n + 1, e, i + 1);
    lemma_strs_len_mono(t, i + 1, n);
    lemma_table_strs_len(t, n);
    let off = 4 + 4 * (n + 1) + strs_len(t, i);
    let next = 4 + 4 * (n + 1) + strs_len(t, i + 1);
    lemma_u32_at(d, toff + 4 + 4 * i, off as u32, e);
    lemma_u32_at(d, toff + 4 + 4 * (i + 1), next as u32, e);
    lemma_table_strs_at(d, toff + 4 + 4 * (n + 1), t, n, i);
    let b = encode_utf8(t[i]);
    lemma_read_plain(d, toff + off, b, 0, (b.len() + 1) as nat);
    assert(b.subrange(0, 0) =~= Seq::<u8>::empty());
    vstd::utf8::encode_utf8_valid_utf8(t[i]);
    vstd::utf8::encode_utf8_decode_utf8(t[i]);
}

/// How deeply containers nest below a node: the fuel that reading it needs.
pub open spec fn depth(n: ByNode) -> nat
    decreases n, 0nat,
{
    match n {
        ByNode::Array(items) => items_depth(items, items.len() as int),
        ByNode::Hash(es) => entries_depth(es, es.len() as int),
        _ => 0,
    }
}

/// One more than the deepest of the first `k` items.
pub open spec fn items_depth(items: Seq<ByNode>, k: int) -> nat
    decreases items, k,
{
    if k <= 0 || k > items.len() {
        0
    } else {
        let a = items_depth(items, k - 1);
        let b = 1 + depth(items[k - 1]);
        if a >= b {
            a
        } else {
            b
        }
    }
}

/// One more than the deepest value of the first `k` entries.
pub open spec fn entries_depth(es: Seq<(Seq<char>, ByNode)>, k: int) -> nat
    decreases es, k,
{
    if k <= 0 || k > es.len() {
        0
    } else {
        let a = entries_depth(es, k - 1);
        let b = 1 + depth(es[k - 1].1);
        if a >= b {
            a
        } else {
            b
        }
    }
}

/// A node's nesting depth is at most the bytes it takes out of line.
proof fn lemma_depth_le_size(n: ByNode)
    ensures
        depth(n) <= node_size(n),
    decreases n, 1nat,
{
    match n {
        ByNode::Array(items) => {
            lemma_items_depth_le(items, items.len() as int);
        },
        ByNode::Hash(es) => {
            lemma_entries_depth_le(es, es.len() as int);
        },
        _ => {},
    }
}

proof fn lemma_items_depth_le(items: Seq<ByNode>, k: int)
    requires
        0 <= k <= items.len(),
    ensures
        items_depth(items, k) <= 1 + items_size(items, k),
    decreases items, k,
{
    if k > 0 {
        lemma_items_depth_le(items, k - 1);
        assert(items.contains(items[k - 1]));
        lemma_depth_le_size(items[k - 1]);
    }
}

proof fn lemma_entries_depth_le(es: Seq<(Seq<char>, ByNode)>, k: int)
    requires
        0 <= k <= es.len(),
    ensures
        entries_depth(es, k) <= 1 + entries_size(es, k),
    decreases es, k,
{
    if k > 0 {
        lemma_entries_depth_le(es, k - 1);
        assert(es.contains(es[k - 1]));
        lemma_depth_le_size(es[k - 1].1);
    }
}

/// No hash holds a key twice.
pub open spec fn keys_unique(n: ByNode) -> bool
    decreases n,
{
    match n {
        ByNode::Array(items) => forall|i: int|
            0 <= i < items.len() ==> keys_unique(#[trigger] items[i]),
        ByNode::Hash(es) => (forall|i: int, j: int|
            0 <= i < j < es.len() ==> es[i].0 != es[j].0) && forall|i: int|
            0 <= i < es.len() ==> keys_unique(#[trigger] es[i].1),
        _ => true,
    }
}

proof fn lemma_items_depth_ge(items: Seq<ByNode>, k: int, i: int)
    requires
        0 <= i < k <= items.len(),
    ensures
        items_depth(items, k) >= 1 + depth(items[i]),
    decreases k,
{
    if i < k - 1 {
        lemma_items_depth_ge(items, k - 1, i);
    }
}

proof fn lemma_entries_depth_ge(es: Seq<(Seq<char>, ByNode)>, k: int, i: int)
    requires
        0 <= i < k <= es.len(),
    ensures
        entries_depth(es, k) >= 1 + depth(es[i].1),
    decreases k,
{
    if i < k - 1 {
        lemma_entries_depth_ge(es, k - 1, i);
    }
}

/// A table of the reader stands in the data as the writer's table `t`.
pub open spec fn table_at(d: Seq<u8>, tc: (u32, u32), t: Seq<Seq<char>>, e: Endian) -> bool {
    t.len() == 0 || {
        &&& tc.1 == t.len()
        &&& 0 < tc.0
        &&& placed(d, tc.0 as int, table_bytes(t, e))
        &&& t.len() < 0x100_0000
        &&& tc.0 + table_size(t) <= u32::MAX
        &&& forall|i: int| 0 <= i < t.len() ==> plain(#[trigger] t[i])
    }
}

/// What the reader's context and the writer's context share.
pub open spec fn ctx_ok(d: Seq<u8>, c: ReadCtx, w: WCtx) -> bool {
    &&& c.e == w.e
    &&& table_at(d, c.strings, w.strings, w.e)
    &&& table_at(d, c.keys, w.keys, w.e)
}

/// The strings and keys of a node are in the tables.
pub open spec fn in_tables(n: ByNode, w: WCtx) -> bool {
    &&& forall|x: Seq<char>| has_string(n, x) ==> #[trigger] w.strings.contains(x)
    &&& forall|x: Seq<char>| has_key(n, x) ==> #[trigger] w.keys.contains(x)
}

proof fn lemma_item_slot_at(d: Seq<u8>, off: int, items: Seq<ByNode>, k: int, cb: int, w: WCtx, i: int)
    requires
        placed(d, off, item_slots(items, k, cb, w)),
        0 <= i < k <= items.len(),
    ensures
        placed(d, off + 4 * i, spec_u32_bytes(slot_value(items[i], cb + items_size(items, i), w), w.e)),
    decreases k,
{
    lemma_item_slots_len(items, k - 1, cb, w);
    lemma_placed_split(
        d,
        off,
        item_slots(items, k - 1, cb, w),
        spec_u32_bytes(slot_value(items[k - 1], cb + items_size(items, k - 1), w), w.e),
    );
    if i < k - 1 {
        lemma_item_slot_at(d, off, items, k - 1, cb, w, i);
    }
}

proof fn lemma_item_data_at(d: Seq<u8>, off: int, items: Seq<ByNode>, k: int, cb: int, w: WCtx, i: int)
    requires
        placed(d, off, item_data(items, k, cb, w)),
        0 <= i < k <= items.len(),
    ensures
        placed(d, off + items_size(items, i), enc(items[i], cb + items_size(items, i), w)),
    decreases k,
{
    lemma_item_data_len(items, k - 1, cb, w);
    lemma_placed_split(
        d,
        off,
        item_data(items, k - 1, cb, w),
        enc(items[k - 1], cb + items_size(items, k - 1), w),
    );
    if i < k - 1 {
        lemma_item_data_at(d, off, items, k - 1, cb, w, i);
    }
}

proof fn lemma_entry_head_at(
    d: Seq<u8>,
    off: int,
    es: Seq<(Seq<char>, ByNode)>,
    k: int,
    cb: int,
    w: WCtx,
    i: int,
)
    requires
        placed(d, off, entry_heads(es, k, cb, w)),
        0 <= i < k <= es.len(),
    ensures
        placed(
            d,
            off + 8 * i,
            spec_u24_bytes(index_in(w.keys, es[i].0) as u32, w.e) + seq![spec_node_tag(type_of(es[i].1))]
                + spec_u32_bytes(slot_value(es[i].1, cb + entries_size(es, i), w), w.e),
        ),
    decreases k,
{
    lemma_entry_heads_len(es, k - 1, cb, w);
    let last = spec_u24_bytes(index_in(w.keys, es[k - 1].0) as u32, w.e) + seq![
        spec_node_tag(type_of(es[k - 1].1)),
    ] + spec_u32_bytes(slot_value(es[k - 1].1, cb + entries_size(es, k - 1), w), w.e);
    assert(entry_heads(es, k, cb, w) =~= entry_heads(es, k - 1, cb, w) + last);
    lemma_placed_split(d, off, entry_heads(es, k - 1, cb, w), last);
    if i < k - 1 {
        lemma_entry_head_at(d, off, es, k - 1, cb, w, i);
    }
}

proof fn lemma_entry_data_at(
    d: Seq<u8>,
    off: int,
    es: Seq<(Seq<char>, ByNode)>,
    k: int,
    cb: int,
    w: WCtx,
    i: int,
)
    requires
        placed(d, off, entry_data(es, k, cb, w)),
        0 <= i < k <= es.len(),
    ensures
        placed(d, off + entries_size(es, i), enc(es[i].1, cb + entries_size(es, i), w)),
    decreases k,
{
    lemma_entry_data_len(es, k - 1, cb, w);
    lemma_placed_split(
        d,
        off,
        entry_data(es, k - 1, cb, w),
        enc(es[k - 1].1, cb + entries_size(es, k - 1), w),
    );
    if i < k - 1 {
        lemma_entry_data_at(d, off, es, k - 1, cb, w, i);
    }
}

/// The parts of an array node as they stand in the data.
proof fn lemma_array_parts(d: Seq<u8>, base: int, items: Seq<ByNode>, w: WCtx)
    requires
        placed(d, base, enc(ByNode::Array(items), base, w)),
    ensures
        d[base] == 0xC0,
        placed(d, base + 1, spec_u24_bytes(items.len() as u32, w.e)),
        placed(d, base + 4, type_bytes(items)),
        placed(
            d,
            base + 4 + items.len() + pad4(items.len() as int),
            item_slots(items, items.len() as int, base + head_len(ByNode::Array(items)), w),
        ),
        placed(
            d,
            base + head_len(ByNode::Array(items)),
            item_data(items, items.len() as int, base + head_len(ByNode::Array(items)), w),
        ),
{
    let n = ByNode::Array(items);
    let cb = base + head_len(n);
    let a = seq![0xC0u8];
    let b = spec_u24_bytes(items.len() as u32, w.e);
    let t = type_bytes(items);
    let z = zeros(pad4(items.len() as int));
    let sl = item_slots(items, items.len() as int, cb, w);
    let da = item_data(items, items.len() as int, cb, w);
    lemma_item_slots_len(items, items.len() as int, cb, w);
    assert(enc(n, base, w) == a + b + t + z + sl + da);
    lemma_placed_split(d, base, a + b + t + z + sl, da);
    lemma_placed_split(d, base, a + b + t + z, sl);
    lemma_placed_split(d, base, a + b + t, z);
    lemma_placed_split(d, base, a + b, t);
    lemma_placed_split(d, base, a, b);
    lemma_placed_byte(d, base, a, 0);
}

/// The parts of a hash node as they stand in the data.
proof fn lemma_hash_parts(d: Seq<u8>, base: int, es: Seq<(Seq<char>, ByNode)>, w: WCtx)
    requires
        placed(d, base, enc(ByNode::Hash(es), base, w)),
    ensures
        d[base] == 0xC1,
        placed(d, base + 1, spec_u24_bytes(es.len() as u32, w.e)),
        placed(d, base + 4, entry_heads(es, es.len() as int, base + head_len(ByNode::Hash(es)), w)),
        placed(
            d,
            base + head_len(ByNode::Hash(es)),
            entry_data(es, es.len() as int, base + head_len(ByNode::Hash(es)), w),
        ),
{
    let n = ByNode::Hash(es);
    let cb = base + head_len(n);
    let a = seq![0xC1u8];
    let b = spec_u24_bytes(es.len() as u32, w.e);
    let h = entry_heads(es, es.len() as int, cb, w);
    let da = entry_data(es, es.len() as int, cb, w);
    lemma_entry_heads_len(es, es.len() as int, cb, w);
    assert(enc(n, base, w) == a + b + h + da);
    lemma_placed_split(d, base, a + b + h, da);
    lemma_placed_split(d, base, a + b, h);
    lemma_placed_split(d, base, a, b);
    lemma_placed_byte(d, base, a, 0);
}

proof fn lemma_i32_bits(x: i32)
    ensures
        (x as u32) as i32 == x,
{
    assert((x as u32) as i32 == x) by (bit_vector);
}

proof fn lemma_i64_bits(x: i64)
    ensures
        (x as u64) as i64 == x,
{
    assert((x as u64) as i64 == x) by (bit_vector);
}

proof fn lemma_value_string(d: Seq<u8>, c: ReadCtx, w: WCtx, s: Seq<char>, slot: int)
    requires
        placed(d, slot, spec_u32_bytes(index_in(w.strings, s) as u32, w.e)),
        slot + 4 <= u32::MAX,
        ctx_ok(d, c, w),
        w.strings.contains(s),
    ensures
        spec_value_node(d, c, slot as u32, NodeType::String) == Read::Value(ByNode::String(s)),
{
    let idx = index_in(w.strings, s);
    lemma_u32_at(d, slot, idx as u32, w.e);
    assert(0 <= idx < w.strings.len() && w.strings[idx] == s);
    assert(plain(w.strings[idx]));
    lemma_table_get(d, c.strings.0 as int, w.strings, w.e, idx);
}

proof fn lemma_value_binary(d: Seq<u8>, c: ReadCtx, w: WCtx, b: Seq<u8>, slot: int, at: int)
    requires
        placed(d, slot, spec_u32_bytes(at as u32, w.e)),
        slot + 4 <= u32::MAX,
        placed(d, at, spec_u32_bytes(b.len() as u32, w.e) + b),
        at + 4 + b.len() <= u32::MAX,
        c.e == w.e,
    ensures
        spec_value_node(d, c, slot as u32, NodeType::Binary) == Read::Value(ByNode::BinaryData(b)),
{
    lemma_u32_at(d, slot, at as u32, w.e);
    lemma_placed_split(d, at, spec_u32_bytes(b.len() as u32, w.e), b);
    lemma_u32_at(d, at, b.len() as u32, w.e);
}

#[verifier::spinoff_prover]
proof fn lemma_value_wide(d: Seq<u8>, c: ReadCtx, slot: int, at: int, x: u64)
    requires
        placed(d, slot, spec_u32_bytes(at as u32, c.e)),
        slot + 4 <= u32::MAX,
        placed(d, at, spec_u64_bytes(x, c.e)),
        0 <= at,
        at + 8 <= u32::MAX,
    ensures
        spec_read_u32(d, slot, c.e) == at,
        spec_read_u64(d, at, c.e) == x,
{
    lemma_u32_at(d, slot, at as u32, c.e);
    lemma_u64_at(d, at, x, c.e);
}

/// A value that is not a container reads back from its slot.
#[verifier::spinoff_prover]
#[verifier::rlimit(30)]
proof fn lemma_value_node(d: Seq<u8>, c: ReadCtx, w: WCtx, n: ByNode, slot: int, at: int)
    requires
        !(n is Array || n is Hash),
        placed(d, slot, spec_u32_bytes(slot_value(n, at, w), w.e)),
        slot + 4 <= u32::MAX,
        !is_inline(n) ==> placed(d, at, enc(n, at, w)) && at + node_size(n) <= u32::MAX && 0 <= at,
        ctx_ok(d, c, w),
        in_tables(n, w),
    ensures
        spec_value_node(d, c, slot as u32, type_of(n)) == Read::Value(n),
{
    match n {
        ByNode::String(s) => {
            assert(has_string(n, s));
            lemma_value_string(d, c, w, s, slot);
        },
        ByNode::BinaryData(b) => {
            lemma_value_binary(d, c, w, b, slot, at);
        },
        ByNode::I64(x) => {
            assert(enc(n, at, w) == spec_u64_bytes(x as u64, w.e));
            lemma_value_wide(d, c, slot, at, x as u64);
            lemma_i64_bits(x);
            assert(spec_value_node(d, c, slot as u32, NodeType::I64) == Read::Value(n));
        },
        ByNode::U64(x) => {
            assert(enc(n, at, w) == spec_u64_bytes(x, w.e));
            lemma_value_wide(d, c, slot, at, x);
            assert(spec_value_node(d, c, slot as u32, NodeType::U64) == Read::Value(n));
        },
        ByNode::Double(x) => {
            assert(enc(n, at, w) == spec_u64_bytes(x, w.e));
            lemma_value_wide(d, c, slot, at, x);
            assert(spec_value_node(d, c, slot as u32, NodeType::Double) == Read::Value(n));
        },
        ByNode::I32(x) => {
            lemma_u32_at(d, slot, slot_value(n, at, w), w.e);
            lemma_i32_bits(x);
        },
        _ => {
            lemma_u32_at(d, slot, slot_value(n, at, w), w.e);
        },
    }
}

/// A value written with its slot at `slot` (and, out of line, at `at`)
/// reads back as itself with enough fuel, else gets stuck.
#[verifier::rlimit(60)]
proof fn lemma_read_child(d: Seq<u8>, c: ReadCtx, w: WCtx, n: ByNode, slot: int, at: int, f: nat)
    requires
        placed(d, slot, spec_u32_bytes(slot_value(n, at, w), w.e)),
        slot + 4 <= u32::MAX,
        !is_inline(n) ==> placed(d, at, enc(n, at, w)) && 0 <= at && at + node_size(n) <= u32::MAX,
        counts_fit(n),
        keys_unique(n),
        ctx_ok(d, c, w),
        in_tables(n, w),
    ensures
        spec_child(d, c, slot as u32, type_of(n), f) == Read::Value(n) || spec_child(
            d,
            c,
            slot as u32,
            type_of(n),
            f,
        ) is Stuck,
        f >= depth(n) ==> spec_child(d, c, slot as u32, type_of(n), f) == Read::Value(n),
    decreases n, 1nat,
{
    if n is Array || n is Hash {
        lemma_u32_at(d, slot, at as u32, w.e);
        lemma_read_container(d, c, w, n, at, f);
    } else {
        lemma_value_node(d, c, w, n, slot, at);
    }
}

/// A container written at `base` reads back as itself with enough fuel,
/// else gets stuck.
proof fn lemma_read_container(d: Seq<u8>, c: ReadCtx, w: WCtx, n: ByNode, base: int, f: nat)
    requires
        n is Array || n is Hash,
        placed(d, base, enc(n, base, w)),
        base + node_size(n) <= u32::MAX,
        counts_fit(n),
        keys_unique(n),
        ctx_ok(d, c, w),
        in_tables(n, w),
    ensures
        spec_container(d, c, base as u32, f) == Read::Value(n) || spec_container(
            d,
            c,
            base as u32,
            f,
        ) is Stuck,
        f >= depth(n) ==> spec_container(d, c, base as u32, f) == Read::Value(n),
    decreases n, 0nat,
{
    match n {
        ByNode::Array(items) => {
            lemma_array_parts(d, base, items, w);
            lemma_u24_at(d, base + 1, items.len() as u32, w.e);
            lemma_tag_type(NodeType::Array);
            assert(items.subrange(0, 0) =~= Seq::<ByNode>::empty());
            lemma_read_items(d, c, w, items, base, 0, f);
        },
        ByNode::Hash(es) => {
            lemma_hash_parts(d, base, es, w);
            lemma_u24_at(d, base + 1, es.len() as u32, w.e);
            lemma_tag_type(NodeType::Hash);
            assert(es.subrange(0, 0) =~= Seq::<(Seq<char>, ByNode)>::empty());
            lemma_read_entries(d, c, w, es, base, 0, f);
        },
        _ => {},
    }
}

/// The items of an array from item `i` on read back.
#[verifier::spinoff_prover]
#[verifier::rlimit(40)]
proof fn lemma_read_items(d: Seq<u8>, c: ReadCtx, w: WCtx, items: Seq<ByNode>, base: int, i: int, f: nat)
    requires
        0 <= i <= items.len() < 0x100_0000,
        0 <= base,
        placed(d, base + 4, type_bytes(items)),
        placed(
            d,
            base + 4 + items.len() + pad4(items.len() as int),
            item_slots(items, items.len() as int, base + head_len(ByNode::Array(items)), w),
        ),
        placed(
            d,
            base + head_len(ByNode::Array(items)),
            item_data(items, items.len() as int, base + head_len(ByNode::Array(items)), w),
        ),
        base + head_len(ByNode::Array(items)) + items_size(items, items.len() as int) <= u32::MAX,
        forall|k: int| 0 <= k < items.len() ==> counts_fit(#[trigger] items[k]) && keys_unique(items[k]),
        ctx_ok(d, c, w),
        in_tables(ByNode::Array(items), w),
    ensures
        spec_array_from(d, c, base as u32, items.len() as u32, i as u32, items.subrange(0, i), f)
            == Read::Value(items) || spec_array_from(
            d,
            c,
            base as u32,
            items.len() as u32,
            i as u32,
            items.subrange(0, i),
            f,
        ) is Stuck,
        f >= items_depth(items, items.len() as int) ==> spec_array_from(
            d,
            c,
            base as u32,
            items.len() as u32,
            i as u32,
            items.subrange(0, i),
            f,
        ) == Read::Value(items),
    decreases items, items.len() - i,
{
    let len = items.len() as int;
    let cb = base + head_len(ByNode::Array(items));
    if i == len {
        assert(items.subrange(0, i) =~= items);
    } else if f == 0 {
        lemma_items_depth_ge(items, len, i);
    } else {
        let vo = base + 4 + len + pad4(len);
        lemma_placed_byte(d, base + 4, type_bytes(items), i);
        lemma_tag_type(type_of(items[i]));
        lemma_item_slot_at(d, vo, items, len, cb, w, i);
        lemma_item_data_at(d, cb, items, len, cb, w, i);
        lemma_items_size_mono(items, i + 1, len);
        let at = cb + items_size(items, i);
        assert forall|x: Seq<char>| has_string(items[i], x) implies #[trigger] w.strings.contains(x) by {
            lemma_child_strings(items, i, x);
        }
        assert forall|x: Seq<char>| has_key(items[i], x) implies #[trigger] w.keys.contains(x) by {
            lemma_child_strings(items, i, x);
        }
        assert(counts_fit(items[i]) && keys_unique(items[i]));
        lemma_read_child(d, c, w, items[i], vo + 4 * i, at, (f - 1) as nat);
        assert(items.subrange(0, i).push(items[i]) =~= items.subrange(0, i + 1));
        lemma_read_items(d, c, w, items, base, i + 1, f);
        if f >= items_depth(items, len) {
            lemma_items_depth_ge(items, len, i);
        }
        assert(values_offset(base as u32, len as u32) == vo);
    }
}

/// The entries of a hash from entry `i` on read back.
#[verifier::spinoff_prover]
#[verifier::rlimit(40)]
proof fn lemma_read_entries(
    d: Seq<u8>,
    c: ReadCtx,
    w: WCtx,
    es: Seq<(Seq<char>, ByNode)>,
    base: int,
    i: int,
    f: nat,
)
    requires
        0 <= i <= es.len() < 0x100_0000,
        0 <= base,
        placed(d, base + 4, entry_heads(es, es.len() as int, base + head_len(ByNode::Hash(es)), w)),
        placed(
            d,
            base + head_len(ByNode::Hash(es)),
            entry_data(es, es.len() as int, base + head_len(ByNode::Hash(es)), w),
        ),
        base + head_len(ByNode::Hash(es)) + entries_size(es, es.len() as int) <= u32::MAX,
        forall|k: int| 0 <= k < es.len() ==> counts_fit(#[trigger] es[k].1) && keys_unique(es[k].1),
        forall|j: int, k: int| 0 <= j < k < es.len() ==> es[j].0 != es[k].0,
        ctx_ok(d, c, w),
        in_tables(ByNode::Hash(es), w),
    ensures
        spec_hash_from(d, c, base as u32, es.len() as u32, i as u32, es.subrange(0, i), f)
            == Read::Value(es) || spec_hash_from(
            d,
            c,
            base as u32,
            es.len() as u32,
            i as u32,
            es.subrange(0, i),
            f,
        ) is Stuck,
        f >= entries_depth(es, es.len() as int) ==> spec_hash_from(
            d,
            c,
            base as u32,
            es.len() as u32,
            i as u32,
            es.subrange(0, i),
            f,
        ) == Read::Value(es),
    decreases es, es.len() - i,
{
    let len = es.len() as int;
    let cb = base + head_len(ByNode::Hash(es));
    if i == len {
        assert(es.subrange(0, i) =~= es);
    } else if f == 0 {
        lemma_entries_depth_ge(es, len, i);
    } else {
        let at = base + 4 + 8 * i;
        let idx = index_in(w.keys, es[i].0);
        lemma_entry_head_at(d, base + 4, es, len, cb, w, i);
        let hb = spec_u24_bytes(idx as u32, w.e);
        let tb = seq![spec_node_tag(type_of(es[i].1))];
        let sb = spec_u32_bytes(slot_value(es[i].1, cb + entries_size(es, i), w), w.e);
        lemma_placed_split(d, at, hb + tb, sb);
        lemma_placed_split(d, at, hb, tb);
        lemma_placed_byte(d, at + 3, tb, 0);
        lemma_tag_type(type_of(es[i].1));
        lemma_entry_strings(es, i, es[i].0);
        assert(w.keys.contains(es[i].0));
        assert(0 <= idx < w.keys.len() && w.keys[idx] == es[i].0);
        lemma_u24_at(d, at, idx as u32, w.e);
        assert(plain(w.keys[idx]));
        lemma_table_get(d, c.keys.0 as int, w.keys, w.e, idx);
        lemma_entry_data_at(d, cb, es, len, cb, w, i);
        lemma_entries_size_mono(es, i + 1, len);
        let child_at = cb + entries_size(es, i);
        assert forall|x: Seq<char>| has_string(es[i].1, x) implies #[trigger] w.strings.contains(x) by {
            lemma_entry_strings(es, i, x);
        }
        assert forall|x: Seq<char>| has_key(es[i].1, x) implies #[trigger] w.keys.contains(x) by {
            lemma_entry_strings(es, i, x);
        }
        assert(counts_fit(es[i].1) && keys_unique(es[i].1));
        lemma_read_child(d, c, w, es[i].1, at + 4, child_at, (f - 1) as nat);
        let acc = es.subrange(0, i);
        assert(!exists|j: int| 0 <= j < acc.len() && acc[j].0 == es[i].0) by {
            assert forall|j: int| 0 <= j < acc.len() implies acc[j].0 != es[i].0 by {
                assert(acc[j] == es[j]);
            }
        }
        assert(spec_hash_insert(acc, es[i].0, es[i].1) =~= es.subrange(0, i + 1));
        lemma_read_entries(d, c, w, es, base, i + 1, f);
        if f >= entries_depth(es, len) {
            lemma_entries_depth_ge(es, len, i);
        }
    }
}

/// No string or hash key of a node has a NUL byte in its UTF-8 form.
pub open spec fn strings_plain(n: ByNode) -> bool {
    forall|x: Seq<char>| (has_string(n, x) || has_key(n, x)) ==> #[trigger] plain(x)
}

proof fn lemma_header_reads(d: Seq<u8>, e: Endian, version: u16, k: u32, s: u32, r: u32)
    requires
        placed(d, 0, header_bytes(e, version, k, s, r)),
    ensures
        d.len() >= 0x10,
        (d[0] == 0x59 && d[1] == 0x42) <==> e == Endian::Little,
        (d[0] == 0x42 && d[1] == 0x59) <==> e == Endian::Big,
        spec_read_u16(d, 2, e) == version,
        spec_read_u32(d, 4, e) == k,
        spec_read_u32(d, 8, e) == s,
        spec_read_u32(d, 12, e) == r,
{
    let magic = match e {
        Endian::Big => seq![0x42u8, 0x59u8],
        Endian::Little => seq![0x59u8, 0x42u8],
    };
    let v = spec_u16_bytes(version, e);
    let kb = spec_u32_bytes(k, e);
    let sb = spec_u32_bytes(s, e);
    let rb = spec_u32_bytes(r, e);
    assert(header_bytes(e, version, k, s, r) == magic + v + kb + sb + rb);
    lemma_placed_split(d, 0, magic + v + kb + sb, rb);
    lemma_placed_split(d, 0, magic + v + kb, sb);
    lemma_placed_split(d, 0, magic + v, kb);
    lemma_placed_split(d, 0, magic, v);
    lemma_placed_byte(d, 0, magic, 0);
    lemma_placed_byte(d, 0, magic, 1);
    lemma_placed_byte(d, 2, v, 0);
    lemma_placed_byte(d, 2, v, 1);
    lemma_read_u16_at(d, 2, version, e);
    lemma_u32_at(d, 4, k, e);
    lemma_u32_at(d, 8, s, e);
    lemma_u32_at(d, 12, r, e);
}

proof fn lemma_null_reads_back(w: WCtx, version: u16, f: nat)
    requires
        2 <= version <= 7,
    ensures
        spec_document(doc_bytes(ByNode::Null, w, version), f) == Read::Value(ByNode::Null),
{
    let d = doc_bytes(ByNode::Null, w, version);
    assert(d.subrange(0, d.len() as int) =~= d);
    lemma_header_reads(d, w.e, version, 0, 0, 0);
}

/// Where the parts of a document stand.
#[verifier::spinoff_prover]
proof fn lemma_doc_layout(n: ByNode, w: WCtx, version: u16)
    requires
        !(n is Null),
    ensures
        ({
            let d = doc_bytes(n, w, version);
            let koff: u32 = if w.keys.len() > 0 {
                0x10
            } else {
                0
            };
            let soff: u32 = if w.strings.len() > 0 {
                (0x10 + table_space(w.keys)) as u32
            } else {
                0
            };
            &&& placed(d, 0, header_bytes(w.e, version, koff, soff, root_offset(w) as u32))
            &&& w.keys.len() > 0 ==> placed(d, 0x10, table_bytes(w.keys, w.e))
            &&& w.strings.len() > 0 ==> placed(d, 0x10 + table_space(w.keys), table_bytes(w.strings, w.e))
            &&& placed(d, root_offset(w), enc(n, root_offset(w), w))
            &&& table_space(w.keys) >= 0
            &&& table_space(w.strings) >= 0
        }),
{
    let d = doc_bytes(n, w, version);
    let e = w.e;
    let koff: u32 = if w.keys.len() > 0 {
        0x10
    } else {
        0
    };
    let soff: u32 = if w.strings.len() > 0 {
        (0x10 + table_space(w.keys)) as u32
    } else {
        0
    };
    let root = root_offset(w);
    let h = header_bytes(e, version, koff, soff, root as u32);
    let kt = if w.keys.len() > 0 {
        table_bytes(w.keys, e)
    } else {
        Seq::empty()
    };
    let st = if w.strings.len() > 0 {
        table_bytes(w.strings, e)
    } else {
        Seq::empty()
    };
    let body = enc(n, root, w);
    lemma_table_len(w.keys, e);
    lemma_table_len(w.strings, e);
    assert(d == h + kt + st + body);
    assert(d.subrange(0, d.len() as int) =~= d);
    lemma_placed_split(d, 0, h + kt + st, body);
    lemma_placed_split(d, 0, h + kt, st);
    lemma_placed_split(d, 0, h, kt);
}

#[verifier::spinoff_prover]
#[verifier::rlimit(40)]
proof fn lemma_doc_reads_back(n: ByNode, w: WCtx, version: u16, f: nat)
    requires
        n is Array || n is Hash,
        counts_fit(n),
        w.keys.len() < 0x100_0000,
        w.strings.len() < 0x100_0000,
        doc_bytes(n, w, version).len() <= u32::MAX,
        tables_of(n, w),
        keys_unique(n),
        strings_plain(n),
        2 <= version <= 7,
    ensures
        spec_document(doc_bytes(n, w, version), f) == Read::Value(n) || spec_document(
            doc_bytes(n, w, version),
            f,
        ) is Stuck,
        f >= depth(n) ==> spec_document(doc_bytes(n, w, version), f) == Read::Value(n),
{
    let d = doc_bytes(n, w, version);
    let e = w.e;
    let koff: u32 = if w.keys.len() > 0 {
        0x10
    } else {
        0
    };
    let soff: u32 = if w.strings.len() > 0 {
        (0x10 + table_space(w.keys)) as u32
    } else {
        0
    };
    let root = root_offset(w);
    lemma_doc_len(n, w, version);
    lemma_doc_layout(n, w, version);
    lemma_header_reads(d, e, version, koff, soff, root as u32);
    let kc: (u32, u32) = if w.keys.len() > 0 {
        lemma_table_read(d, 0x10, w.keys, e);
        (0x10u32, w.keys.len() as u32)
    } else {
        (0u32, 0u32)
    };
    let sc: (u32, u32) = if w.strings.len() > 0 {
        lemma_table_read(d, soff as int, w.strings, e);
        (soff, w.strings.len() as u32)
    } else {
        (0u32, 0u32)
    };
    let c = ReadCtx { e, strings: sc, keys: kc };
    assert forall|i: int| 0 <= i < w.keys.len() implies plain(#[trigger] w.keys[i]) by {
        assert(w.keys.contains(w.keys[i]));
        assert(has_key(n, w.keys[i]));
    }
    assert forall|i: int| 0 <= i < w.strings.len() implies plain(#[trigger] w.strings[i]) by {
        assert(w.strings.contains(w.strings[i]));
        assert(has_string(n, w.strings[i]));
    }
    assert(ctx_ok(d, c, w));
    assert(in_tables(n, w));
    lemma_read_container(d, c, w, n, root, f);
}

/// Reading what `to_binary` or `write` wrote gives the document back,
/// where every string and hash key is without NUL and no hash holds
/// a key twice.
pub proof fn written_reads_back(n: ByNode, e: Endian, version: u16, r: Seq<u8>)
    requires
        spec_writable(n),
        spec_written(n, e, version, r),
        2 <= version <= 7,
        keys_unique(n),
        strings_plain(n),
    ensures
        spec_byml_read(r) == Read::Value(n),
{
    let w = choose|w: WCtx| #[trigger] tables_of(n, w) && w.e == e && r == doc_bytes(n, w, version);
    if n is Null {
        assert forall|f: nat| #[trigger] spec_document(r, f) == Read::Value(ByNode::Null) by {
            lemma_null_reads_back(w, version, f);
        }
        assert(spec_document(r, r.len()) == Read::Value(ByNode::Null));
    } else {
        assert(tables_of(n, w));
        lemma_doc_len(n, w, version);
        lemma_doc_len(n, w, 2);
        lemma_depth_le_size(n);
        lemma_doc_reads_back(n, w, version, r.len());
    }
}


/// A written document starts with `BY` or `YB`, so it is not Yaz0 data.
proof fn lemma_doc_magic(n: ByNode, w: WCtx, version: u16)
    ensures
        doc_bytes(n, w, version).len() >= 16,
        doc_bytes(n, w, version)[1] == 0x42 || doc_bytes(n, w, version)[1] == 0x59,
{
    if n is Null {
        let h = header_bytes(w.e, version, 0, 0, 0);
        assert(h.len() == 16);
    } else {
        let koff: u32 = if w.keys.len() > 0 {
            0x10
        } else {
            0
        };
        let soff: u32 = if w.strings.len() > 0 {
            (0x10 + table_space(w.keys)) as u32
        } else {
            0
        };
        let h = header_bytes(w.e, version, koff, soff, root_offset(w) as u32);
        let k = if w.keys.len() > 0 {
            table_bytes(w.keys, w.e)
        } else {
            Seq::empty()
        };
        let st = if w.strings.len() > 0 {
            table_bytes(w.strings, w.e)
        } else {
            Seq::empty()
        };
        let body = enc(n, root_offset(w), w);
        assert(doc_bytes(n, w, version) == h + k + st + body);
        assert(h.len() == 16);
        assert((h + k + st + body)[1] == h[1]);
    }
}

/// `Byml::from_binary` of what `Byml::to_binary` or `Byml::write` wrote
/// gives the document back (floats by their bits), under the conditions of
/// `written_reads_back`: `r` is any result that `from_binary`'s contract
/// allows for the written bytes.
#[verifier::spinoff_prover]
pub proof fn from_binary_of_written(n: ByNode, e: Endian, version: u16, bytes: Seq<u8>, r: Result<Byml>)
    requires
        spec_writable(n),
        spec_written(n, e, version, bytes),
        2 <= version <= 7,
        keys_unique(n),
        strings_plain(n),
        spec_payload(bytes) matches Some(b) ==> super::reader::spec_from_binary_result(b, r),
    ensures
        r matches Ok(x) && x.node() == n,
{
    written_reads_back(n, e, version, bytes);
    let w = choose|w: WCtx| #[trigger] tables_of(n, w) && w.e == e && bytes == doc_bytes(n, w, version);
    lemma_doc_magic(n, w, version);
    assert(spec_payload(bytes) == Some(bytes));
}

/// A string table entry reads as the string whose UTF-8 form its bytes are,
/// up to their NUL, where the entry's range holds them; an index past the
/// table is refused.
pub proof fn table_string_reads_as_utf8(
    d: Seq<u8>,
    e: Endian,
    table: (u32, u32),
    index: u32,
    s: Seq<char>,
)
    ensures
        index >= table.1 ==> spec_get_string(d, e, table, index) == Read::<Seq<char>>::Fault(
            BymlFault::BadStringIndex,
        ),
        ({
            let at = table.0 + 4 + 4 * index;
            let off = spec_read_u32(d, at, e);
            let next = spec_read_u32(d, at + 4, e);
            let b = encode_utf8(s);
            index < table.1 && at <= u32::MAX && at + 8 <= d.len() && off + b.len() <= next
                && table.0 + off <= u32::MAX && plain(s) && placed(d, table.0 + off, b.push(0))
                ==> spec_get_string(d, e, table, index) == Read::Value(s)
        }),
{
    let at = table.0 + 4 + 4 * index;
    let off = spec_read_u32(d, at, e);
    let next = spec_read_u32(d, at + 4, e);
    let b = encode_utf8(s);
    if index < table.1 && at <= u32::MAX && at + 8 <= d.len() && off + b.len() <= next && table.0
        + off <= u32::MAX && plain(s) && placed(d, table.0 + off, b.push(0)) {
        lemma_read_plain(d, table.0 + off, b, 0, (next - off) as nat);
        assert(b.subrange(0, 0) =~= Seq::<u8>::empty());
        vstd::utf8::encode_utf8_valid_utf8(s);
        vstd::utf8::encode_utf8_decode_utf8(s);
    }
}

/// The tag that the writer gives each node, as the format fixes it: 0xA0
/// for a string, 0xA1 binary data, 0xC0 an array, 0xC1 a hash, 0xD0 a
/// boolean, 0xD1 a signed and 0xD3 an unsigned 32-bit integer, 0xD2 a
/// float, 0xD4 a signed and 0xD5 an unsigned 64-bit integer, 0xD6 a double,
/// 0xFF null.
pub proof fn byml_written_tags(n: ByNode)
    ensures
        n is String ==> spec_node_tag(type_of(n)) == 0xA0,
        n is BinaryData ==> spec_node_tag(type_of(n)) == 0xA1,
        n is Array ==> spec_node_tag(type_of(n)) == 0xC0,
        n is Hash ==> spec_node_tag(type_of(n)) == 0xC1,
        n is Bool ==> spec_node_tag(type_of(n)) == 0xD0,
        n is I32 ==> spec_node_tag(type_of(n)) == 0xD1,
        n is Float ==> spec_node_tag(type_of(n)) == 0xD2,
        n is U32 ==> spec_node_tag(type_of(n)) == 0xD3,
        n is I64 ==> spec_node_tag(type_of(n)) == 0xD4,
        n is U64 ==> spec_node_tag(type_of(n)) == 0xD5,
        n is Double ==> spec_node_tag(type_of(n)) == 0xD6,
        n is Null ==> spec_node_tag(type_of(n)) == 0xFF,
{
}
} // verus!
