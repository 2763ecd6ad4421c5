//! Reading back a written parameter archive.
use vstd::prelude::*;
use super::binary::{
    avail, fixed_string, fixed_words, null_string, param_value, spec_param, string_cap, u24le,
    word, words_at, Outcome,
};
use super::param::{ListV, PVal};
use super::queue::{
    cnt, collect_queues_each_parameter_once, item_of, lemma_pseq, pseq, pseq_from, pseq_own, qcnt,
};
use super::writer::{
    collect, data_entry, data_key, data_patches, data_run, data_section, first_data, first_str,
    is_buf_type, is_str_type, lemma_params_len, lemma_sections_def, np, obj_param_recs,
    own_param_recs, pad_zeros, param_rec, params_from, params_region, patched_params, str_bytes,
    str_patches, str_run, string_section, u32f, words_le, Item, ObjV,
};
use crate::Endian;
use crate::util::lemma_u32_roundtrip;

verus! {

/// The last of the first `n` items with record index `r`.
pub open spec fn last_hit(items: Seq<Item>, n: int, r: int) -> Option<int>
    decreases n,
{
    if n <= 0 || n > items.len() {
        None
    } else if items[n - 1].0 == r {
        Some(n - 1)
    } else {
        last_hit(items, n - 1, r)
    }
}

/// The only item with a record index is the last one with it.
proof fn lemma_last_hit_unique(items: Seq<Item>, n: int, r: int, k: int)
    requires
        0 <= k < n <= items.len(),
        items[k].0 == r,
        cnt(items.take(n), r) == 1,
    ensures
        last_hit(items, n, r) == Some(k),
    decreases n,
{
    assert(items.take(n).drop_last() =~= items.take(n - 1));
    assert(items.take(n).last() == items[n - 1]);
    if k < n - 1 {
        if items[n - 1].0 == r {
            lemma_cnt_pos(items.take(n - 1), k, r);
            assert(false);
        }
        lemma_last_hit_unique(items, n - 1, r, k);
    }
}

/// An item in a queue is counted.
proof fn lemma_cnt_pos(s: Seq<Item>, k: int, r: int)
    requires
        0 <= k < s.len(),
        s[k].0 == r,
    ensures
        cnt(s, r) >= 1,
    decreases s.len(),
{
    if k < s.len() - 1 {
        lemma_cnt_pos(s.drop_last(), k, r);
    }
}

/// A record index that is not counted has no hit.
proof fn lemma_no_hit(items: Seq<Item>, n: int, r: int)
    requires
        0 <= n <= items.len(),
        cnt(items.take(n), r) == 0,
    ensures
        last_hit(items, n, r) is None,
    decreases n,
{
    if n > 0 {
        assert(items.take(n).drop_last() =~= items.take(n - 1));
        assert(items.take(n).last() == items[n - 1]);
        lemma_no_hit(items, n - 1, r);
    }
}

/// The 24-bit field of a patched record reads back its value.
proof fn lemma_patch24_value(v: int)
    requires
        0 <= v < 0x1000000,
    ensures
        (v % 256) as u8 + ((v / 256) % 256) as u8 * 256 + ((v / 65536) % 256) as u8 * 65536 == v,
{
    let b0 = v % 256;
    let b1 = (v / 256) % 256;
    let b2 = (v / 65536) % 256;
    assert(b0 + b1 * 256 + b2 * 65536 == v) by (nonlinear_arith)
        requires
            b0 == v % 256,
            b1 == (v / 256) % 256,
            b2 == (v / 65536) % 256,
            0 <= v < 0x1000000,
    ;
}

/// After the data patches, a record keeps its name and type, and all of
/// it where no item has its index.
proof fn lemma_data_patches_keep(b: Seq<u8>, items: Seq<Item>, offs: Seq<int>, n: int, npt: int, r: int)
    requires
        0 <= n <= items.len(),
        0 <= r,
        8 * r + 8 <= b.len(),
    ensures
        data_patches(b, items, offs, n, npt).len() == b.len(),
        forall|x: int|
            0 <= x < 8 && (x < 4 || x == 7) ==> #[trigger] data_patches(b, items, offs, n, npt)[8 * r
                + x] == b[8 * r + x],
        last_hit(items, n, r) is None ==> forall|x: int|
            4 <= x < 7 ==> #[trigger] data_patches(b, items, offs, n, npt)[8 * r + x] == b[8 * r + x],
    decreases n,
{
    if n > 0 {
        lemma_data_patches_keep(b, items, offs, n - 1, npt, r);
    }
}

/// After the data patches, the data offset of a record is that of its last
/// item.
proof fn lemma_data_patches_hit(b: Seq<u8>, items: Seq<Item>, offs: Seq<int>, n: int, npt: int, r: int)
    requires
        0 <= n <= items.len(),
        0 <= r,
        8 * r + 8 <= b.len(),
        last_hit(items, n, r) matches Some(k) && 0 <= 2 * (npt - r) + offs[k] / 4 < 0x1000000,
    ensures
        u24le(data_patches(b, items, offs, n, npt), 8 * r + 4) == 2 * (npt - r) + offs[last_hit(
            items,
            n,
            r,
        )->0] / 4,
    decreases n,
{
    lemma_data_patches_keep(b, items, offs, n - 1, npt, r);
    if items[n - 1].0 == r {
        lemma_patch24_value(2 * (npt - r) + offs[n - 1] / 4);
    } else {
        lemma_data_patches_hit(b, items, offs, n - 1, npt, r);
    }
}

/// After the string patches, a record keeps its name and type, and all of
/// it where no item has its index.
proof fn lemma_str_patches_keep(
    b: Seq<u8>,
    items: Seq<Item>,
    offs: Seq<int>,
    n: int,
    npt: int,
    dlen: int,
    r: int,
)
    requires
        0 <= n <= items.len(),
        0 <= r,
        8 * r + 8 <= b.len(),
    ensures
        str_patches(b, items, offs, n, npt, dlen).len() == b.len(),
        forall|x: int|
            0 <= x < 8 && (x < 4 || x == 7) ==> #[trigger] str_patches(b, items, offs, n, npt, dlen)[8
                * r + x] == b[8 * r + x],
        last_hit(items, n, r) is None ==> forall|x: int|
            4 <= x < 7 ==> #[trigger] str_patches(b, items, offs, n, npt, dlen)[8 * r + x] == b[8 * r
                + x],
    decreases n,
{
    if n > 0 {
        lemma_str_patches_keep(b, items, offs, n - 1, npt, dlen, r);
    }
}

/// After the string patches, the data offset of a record is that of its
/// last item.
proof fn lemma_str_patches_hit(
    b: Seq<u8>,
    items: Seq<Item>,
    offs: Seq<int>,
    n: int,
    npt: int,
    dlen: int,
    r: int,
)
    requires
        0 <= n <= items.len(),
        0 <= r,
        8 * r + 8 <= b.len(),
        last_hit(items, n, r) matches Some(k) && 0 <= (8 * (npt - r) + dlen + offs[k]) / 4
            < 0x1000000,
    ensures
        u24le(str_patches(b, items, offs, n, npt, dlen), 8 * r + 4) == (8 * (npt - r) + dlen
            + offs[last_hit(items, n, r)->0]) / 4,
    decreases n,
{
    lemma_str_patches_keep(b, items, offs, n - 1, npt, dlen, r);
    if items[n - 1].0 == r {
        lemma_patch24_value((8 * (npt - r) + dlen + offs[n - 1]) / 4);
    } else {
        lemma_str_patches_hit(b, items, offs, n - 1, npt, dlen, r);
    }
}

/// Where the data of an item starts before its buffer length, if any.
pub open spec fn buf_len_size(t: u8) -> int {
    if is_buf_type(t) {
        4
    } else {
        0
    }
}

/// The first item with the same data has that data.
proof fn lemma_first_data_key(items: Seq<Item>, n: int, key: (bool, Seq<u8>))
    requires
        0 <= n <= items.len(),
    ensures
        first_data(items, n, key) matches Some(j) ==> 0 <= j < n && data_key(items[j]) == key,
    decreases n,
{
    if n > 0 {
        lemma_first_data_key(items, n - 1, key);
    }
}

/// The first item with the same string has that string.
proof fn lemma_first_str_key(items: Seq<Item>, n: int, key: Seq<u8>)
    requires
        0 <= n <= items.len(),
    ensures
        first_str(items, n, key) matches Some(j) ==> 0 <= j < n && str_bytes(items[j].1.1) == key,
    decreases n,
{
    if n > 0 {
        lemma_first_str_key(items, n - 1, key);
    }
}

/// The data section holds each item's data where its offset says; offsets
/// and the section's length are multiples of four.
#[verifier::spinoff_prover]
#[verifier::rlimit(50)]
proof fn lemma_data_run_content(items: Seq<Item>, n: int)
    requires
        0 <= n <= items.len(),
    ensures
        data_run(items, n).0.len() % 4 == 0,
        data_run(items, n).1.len() == n,
        forall|k: int|
            0 <= k < n ==> {
                let d = data_run(items, n).0;
                let o = #[trigger] data_run(items, n).1[k];
                let e = data_entry(items[k].1.0, items[k].1.1);
                let st = o - buf_len_size(items[k].1.0);
                &&& o % 4 == 0
                &&& 0 <= st
                &&& st + e.len() <= d.len()
                &&& d.subrange(st, st + e.len()) == e
            },
    decreases n,
{
    if n > 0 {
        lemma_data_run_content(items, n - 1);
        let prev = data_run(items, n - 1);
        let cur = data_run(items, n);
        lemma_first_data_key(items, n - 1, data_key(items[n - 1]));
        match first_data(items, n - 1, data_key(items[n - 1])) {
            Some(j) => {
                assert forall|k: int| 0 <= k < n implies {
                    let d = cur.0;
                    let o = #[trigger] cur.1[k];
                    let e = data_entry(items[k].1.0, items[k].1.1);
                    let st = o - buf_len_size(items[k].1.0);
                    &&& o % 4 == 0
                    &&& 0 <= st
                    &&& st + e.len() <= d.len()
                    &&& d.subrange(st, st + e.len()) == e
                } by {
                    if k == n - 1 {
                        assert(cur.1[k] == prev.1[j]);
                        assert(prev.1[j] == prev.1[j]);
                    } else {
                        assert(cur.1[k] == prev.1[k]);
                    }
                }
            },
            None => {
                let e = data_entry(items[n - 1].1.0, items[n - 1].1.1);
                assert(cur.0 == prev.0 + e + pad_zeros(e.len() as int));
                assert forall|k: int| 0 <= k < n implies {
                    let d = cur.0;
                    let o = #[trigger] cur.1[k];
                    let e = data_entry(items[k].1.0, items[k].1.1);
                    let st = o - buf_len_size(items[k].1.0);
                    &&& o % 4 == 0
                    &&& 0 <= st
                    &&& st + e.len() <= d.len()
                    &&& d.subrange(st, st + e.len()) == e
                } by {
                    if k == n - 1 {
                        assert(cur.0.subrange(prev.0.len() as int, (prev.0.len() + e.len()) as int) =~= e);
                    } else {
                        assert(cur.1[k] == prev.1[k]);
                        let ek = data_entry(items[k].1.0, items[k].1.1);
                        let st = prev.1[k] - buf_len_size(items[k].1.0);
                        assert(cur.0.subrange(st, st + ek.len()) =~= prev.0.subrange(st, st + ek.len()));
                    }
                }
            },
        }
    }
}

/// The string section holds each item's string and a NUL where its offset
/// says; offsets and the section's length are multiples of four.
#[verifier::spinoff_prover]
#[verifier::rlimit(50)]
proof fn lemma_str_run_content(items: Seq<Item>, n: int)
    requires
        0 <= n <= items.len(),
    ensures
        str_run(items, n).0.len() % 4 == 0,
        str_run(items, n).1.len() == n,
        forall|k: int|
            0 <= k < n ==> {
                let d = str_run(items, n).0;
                let o = #[trigger] str_run(items, n).1[k];
                let e = str_bytes(items[k].1.1).push(0u8);
                &&& o % 4 == 0
                &&& 0 <= o
                &&& o + e.len() <= d.len()
                &&& d.subrange(o, o + e.len()) == e
            },
    decreases n,
{
    if n > 0 {
        lemma_str_run_content(items, n - 1);
        let prev = str_run(items, n - 1);
        let cur = str_run(items, n);
        lemma_first_str_key(items, n - 1, str_bytes(items[n - 1].1.1));
        match first_str(items, n - 1, str_bytes(items[n - 1].1.1)) {
            Some(j) => {
                assert forall|k: int| 0 <= k < n implies {
                    let d = cur.0;
                    let o = #[trigger] cur.1[k];
                    let e = str_bytes(items[k].1.1).push(0u8);
                    &&& o % 4 == 0
                    &&& 0 <= o
                    &&& o + e.len() <= d.len()
                    &&& d.subrange(o, o + e.len()) == e
                } by {
                    if k == n - 1 {
                        assert(cur.1[k] == prev.1[j]);
                    } else {
                        assert(cur.1[k] == prev.1[k]);
                    }
                }
            },
            None => {
                let e = str_bytes(items[n - 1].1.1).push(0u8);
                assert(cur.0 == prev.0 + e + pad_zeros(e.len() as int));
                assert forall|k: int| 0 <= k < n implies {
                    let d = cur.0;
                    let o = #[trigger] cur.1[k];
                    let e = str_bytes(items[k].1.1).push(0u8);
                    &&& o % 4 == 0
                    &&& 0 <= o
                    &&& o + e.len() <= d.len()
                    &&& d.subrange(o, o + e.len()) == e
                } by {
                    if k == n - 1 {
                        assert(cur.0.subrange(prev.0.len() as int, (prev.0.len() + e.len()) as int) =~= e);
                    } else {
                        assert(cur.1[k] == prev.1[k]);
                        let ek = str_bytes(items[k].1.1).push(0u8);
                        let st = prev.1[k];
                        assert(cur.0.subrange(st, st + ek.len()) =~= prev.0.subrange(st, st + ek.len()));
                    }
                }
            },
        }
    }
}

/// No byte is NUL.
pub open spec fn no_nul(b: Seq<u8>) -> bool {
    forall|i: int| 0 <= i < b.len() ==> b[i] != 0
}

/// A parameter value that reads back as written: its type is known, a
/// fixed-size value has the words of its type, a buffer's length fits in
/// 32 bits, and a string has no NUL, fits its type and is UTF-8.
pub open spec fn param_ok(tv: (u8, PVal)) -> bool {
    let t = tv.0;
    &&& t <= 20
    &&& match tv.1 {
        PVal::Bool(_) => t == 0,
        PVal::Words(ws) => if is_buf_type(t) {
            t != 19 && ws.len() <= u32::MAX
        } else {
            fixed_words(t) > 0 && ws.len() == fixed_words(t)
        },
        PVal::Bytes(b) => if t == 19 {
            b.len() <= u32::MAX
        } else {
            (t == 7 || t == 8 || t == 15) && b.len() <= string_cap(t) && no_nul(b)
                && vstd::utf8::valid_utf8(b)
        },
        PVal::Chars(c) => t == 20 && no_nul(vstd::utf8::encode_utf8(c)),
    }
}

/// A word reads back from its bytes.
proof fn lemma_word_at(d: Seq<u8>, off: int, w: u32)
    requires
        0 <= off,
        off + 4 <= d.len(),
        d.subrange(off, off + 4) == u32f(w),
    ensures
        word(d, off) == w,
{
    lemma_u32_roundtrip(w, Endian::Little);
    assert(d[off] == u32f(w)[0]);
    assert(d[off + 1] == u32f(w)[1]);
    assert(d[off + 2] == u32f(w)[2]);
    assert(d[off + 3] == u32f(w)[3]);
}

proof fn lemma_words_le_len(ws: Seq<u32>)
    ensures
        words_le(ws).len() == 4 * ws.len(),
    decreases ws.len(),
{
    if ws.len() > 0 {
        lemma_words_le_len(ws.drop_last());
    }
}

/// Words read back from their bytes.
proof fn lemma_words_at(d: Seq<u8>, off: int, ws: Seq<u32>)
    requires
        0 <= off,
        off + 4 * ws.len() <= d.len(),
        d.subrange(off, off + 4 * ws.len()) == words_le(ws),
    ensures
        words_at(d, off, ws.len()) == ws,
    decreases ws.len(),
{
    lemma_words_le_len(ws);
    if ws.len() > 0 {
        let n = ws.len() as int;
        lemma_words_le_len(ws.drop_last());
        assert(d.subrange(off, off + 4 * (n - 1)) =~= d.subrange(off, off + 4 * n).subrange(0, 4 * (n - 1)));
        assert(words_le(ws).subrange(0, 4 * (n - 1)) =~= words_le(ws.drop_last()));
        lemma_words_at(d, off, ws.drop_last());
        assert(d.subrange(off + 4 * (n - 1), off + 4 * n) =~= words_le(ws).subrange(4 * (n - 1), 4 * n));
        assert(words_le(ws).subrange(4 * (n - 1), 4 * n) =~= u32f(ws.last()));
        lemma_word_at(d, off + 4 * (n - 1), ws.last());
        assert forall|i: int| 0 <= i < n implies #[trigger] words_at(d, off, ws.len())[i] == ws[i] by {
            if i < n - 1 {
                assert(words_at(d, off, ws.drop_last().len())[i] == ws.drop_last()[i]);
            }
        }
        assert(words_at(d, off, ws.len()) =~= ws);
    } else {
        assert(words_at(d, off, ws.len()) =~= ws);
    }
}

/// A fixed-size string reads back up to its NUL or its capacity.
proof fn lemma_fixed_string(d: Seq<u8>, off: int, cap: int, b: Seq<u8>, i: int)
    requires
        0 <= off,
        0 <= i <= b.len(),
        b.len() <= cap,
        no_nul(b),
        off + b.len() + 1 <= d.len(),
        d.subrange(off, off + b.len() + 1) == b.push(0u8),
    ensures
        fixed_string(d, off + i, cap, b.take(i)) == Outcome::Value(b),
    decreases b.len() - i,
{
    assert(d[off + i] == b.push(0u8)[i]);
    if i < b.len() {
        assert(b.take(i).push(b[i]) =~= b.take(i + 1));
        lemma_fixed_string(d, off, cap, b, i + 1);
    } else {
        assert(b.take(i) =~= b);
    }
}

/// A NUL-terminated string reads back.
pub(crate) proof fn lemma_null_string(d: Seq<u8>, off: int, b: Seq<u8>, i: int)
    requires
        0 <= off,
        0 <= i <= b.len(),
        no_nul(b),
        off + b.len() + 1 <= d.len(),
        d.subrange(off, off + b.len() + 1) == b.push(0u8),
    ensures
        null_string(d, off + i, b.take(i)) == Outcome::Value(b),
    decreases b.len() - i,
{
    assert(d[off + i] == b.push(0u8)[i]);
    if i < b.len() {
        assert(b.take(i).push(b[i]) =~= b.take(i + 1));
        lemma_null_string(d, off, b, i + 1);
    } else {
        assert(b.take(i) =~= b);
    }
}

/// A buffer's length reads back from the word before its data.
proof fn lemma_buf_len(d: Seq<u8>, data: int, e: Seq<u8>, len: u32)
    requires
        data >= 4,
        data - 4 + e.len() <= d.len(),
        e.len() >= 4,
        d.subrange(data - 4, data - 4 + e.len()) == e,
        e.subrange(0, 4) == u32f(len),
    ensures
        word(d, data - 4) == len,
        d.subrange(data, data - 4 + e.len()) == e.subrange(4, e.len() as int),
{
    assert(d.subrange(data - 4, data) =~= e.subrange(0, 4));
    lemma_word_at(d, data - 4, len);
    assert(d.subrange(data, data - 4 + e.len()) =~= e.subrange(4, e.len() as int));
}

proof fn lemma_words_value(d: Seq<u8>, t: u8, ws: Seq<u32>, data: int)
    requires
        param_ok((t, PVal::Words(ws))),
        data >= buf_len_size(t),
        data - buf_len_size(t) + data_entry(t, PVal::Words(ws)).len() <= d.len(),
        d.subrange(data - buf_len_size(t), data - buf_len_size(t) + data_entry(t, PVal::Words(ws)).len())
            == data_entry(t, PVal::Words(ws)),
    ensures
        param_value(d, t, data) == Outcome::Value(PVal::Words(ws)),
{
    lemma_words_le_len(ws);
    let e = data_entry(t, PVal::Words(ws));
    if is_buf_type(t) {
        assert(e.subrange(0, 4) =~= u32f(ws.len() as u32));
        lemma_buf_len(d, data, e, ws.len() as u32);
        assert(e.subrange(4, e.len() as int) =~= words_le(ws));
        assert(e.len() == 4 + 4 * ws.len());
        lemma_words_at(d, data, ws);
        let size = word(d, data - 4);
        assert(size as nat == ws.len());
        assert(avail(d, data, 4 * size));
        assert(param_value(d, t, data) == Outcome::Value(PVal::Words(words_at(d, data, size as nat))));
    } else {
        assert(e == words_le(ws));
        lemma_words_at(d, data, ws);
        assert(avail(d, data, 4 * fixed_words(t) as int));
    }
}

proof fn lemma_bytes_value(d: Seq<u8>, t: u8, b: Seq<u8>, data: int)
    requires
        param_ok((t, PVal::Bytes(b))),
        data >= buf_len_size(t),
        is_str_type(t) ==> data + b.len() + 1 <= d.len() && d.subrange(data, data + b.len() + 1) == b.push(0u8),
        !is_str_type(t) ==> data - buf_len_size(t) + data_entry(t, PVal::Bytes(b)).len() <= d.len()
            && d.subrange(data - buf_len_size(t), data - buf_len_size(t) + data_entry(t, PVal::Bytes(b)).len())
            == data_entry(t, PVal::Bytes(b)),
    ensures
        param_value(d, t, data) == Outcome::Value(PVal::Bytes(b)),
{
    if t == 19 {
        let e = data_entry(t, PVal::Bytes(b));
        assert(e.subrange(0, 4) =~= u32f(b.len() as u32));
        lemma_buf_len(d, data, e, b.len() as u32);
        assert(e.subrange(4, e.len() as int) =~= b);
    } else {
        lemma_fixed_string(d, data, string_cap(t), b, 0);
        assert(b.take(0) =~= Seq::<u8>::empty());
    }
}

proof fn lemma_chars_value(d: Seq<u8>, c: Seq<char>, data: int)
    requires
        param_ok((20u8, PVal::Chars(c))),
        data >= 0,
        data + vstd::utf8::encode_utf8(c).len() + 1 <= d.len(),
        d.subrange(data, data + vstd::utf8::encode_utf8(c).len() + 1) == vstd::utf8::encode_utf8(c).push(0u8),
    ensures
        param_value(d, 20u8, data) == Outcome::Value(PVal::Chars(c)),
{
    let b = vstd::utf8::encode_utf8(c);
    lemma_null_string(d, data, b, 0);
    assert(b.take(0) =~= Seq::<u8>::empty());
    vstd::utf8::encode_utf8_valid_utf8(c);
    vstd::utf8::encode_utf8_decode_utf8(c);
}

/// The value of a parameter reads back from its data (or, for a string,
/// from its bytes and NUL).
proof fn lemma_param_value(d: Seq<u8>, tv: (u8, PVal), data: int)
    requires
        param_ok(tv),
        data >= buf_len_size(tv.0),
        is_str_type(tv.0) ==> {
            let e = str_bytes(tv.1).push(0u8);
            &&& data + e.len() <= d.len()
            &&& d.subrange(data, data + e.len()) == e
        },
        !is_str_type(tv.0) ==> {
            let e = data_entry(tv.0, tv.1);
            let st = data - buf_len_size(tv.0);
            &&& st + e.len() <= d.len()
            &&& d.subrange(st, st + e.len()) == e
        },
    ensures
        param_value(d, tv.0, data) == Outcome::Value(tv.1),
{
    match tv.1 {
        PVal::Bool(b) => {
            lemma_word_at(d, data, if b { 1u32 } else { 0u32 });
        },
        PVal::Words(ws) => {
            lemma_words_value(d, tv.0, ws, data);
        },
        PVal::Bytes(b) => {
            lemma_bytes_value(d, tv.0, b, data);
        },
        PVal::Chars(c) => {
            lemma_chars_value(d, c, data);
        },
    }
}

/// The records of parameters, one after another, before their data offsets
/// are known.
pub open spec fn recs(s: ObjV) -> Seq<u8>
    decreases s.len(),
{
    if s.len() == 0 {
        Seq::empty()
    } else {
        recs(s.drop_last()) + param_rec(s.last().0, s.last().1.0)
    }
}

proof fn lemma_recs_add(a: ObjV, b: ObjV)
    ensures
        recs(a + b) == recs(a) + recs(b),
    decreases b.len(),
{
    if b.len() > 0 {
        lemma_recs_add(a, b.drop_last());
        assert((a + b).drop_last() =~= a + b.drop_last());
        assert((a + b).last() == b.last());
        assert(recs(a + b) =~= recs(a) + recs(b));
    } else {
        assert(a + b =~= a);
        assert(recs(a + b) =~= recs(a) + recs(b));
    }
}

/// Record `j` of a sequence of parameters.
proof fn lemma_recs_index(s: ObjV, j: int)
    requires
        0 <= j < s.len(),
    ensures
        recs(s).len() == 8 * s.len(),
        recs(s).subrange(8 * j, 8 * j + 8) == param_rec(s[j].0, s[j].1.0),
    decreases s.len(),
{
    lemma_recs_len(s);
    lemma_recs_len(s.drop_last());
    if j < s.len() - 1 {
        lemma_recs_index(s.drop_last(), j);
        assert(recs(s).subrange(8 * j, 8 * j + 8) =~= recs(s.drop_last()).subrange(8 * j, 8 * j + 8));
    } else {
        assert(recs(s).subrange(8 * j, 8 * j + 8) =~= param_rec(s.last().0, s.last().1.0));
    }
}

proof fn lemma_recs_len(s: ObjV)
    ensures
        recs(s).len() == 8 * s.len(),
    decreases s.len(),
{
    if s.len() > 0 {
        lemma_recs_len(s.drop_last());
    }
}

proof fn lemma_obj_param_recs(obj: ObjV, q: int)
    requires
        0 <= q <= obj.len(),
    ensures
        obj_param_recs(obj, q) == recs(obj.subrange(q, obj.len() as int)),
    decreases obj.len() - q,
{
    if q < obj.len() {
        lemma_obj_param_recs(obj, q + 1);
        let tail = obj.subrange(q + 1, obj.len() as int);
        assert(obj.subrange(q, obj.len() as int) =~= seq![obj[q]] + tail);
        lemma_recs_add(seq![obj[q]], tail);
        assert(seq![obj[q]].drop_last() =~= Seq::<(u32, (u8, PVal))>::empty());
        assert(recs(Seq::<(u32, (u8, PVal))>::empty()) =~= Seq::<u8>::empty());
        assert(seq![obj[q]].last() == obj[q]);
        assert(recs(seq![obj[q]]) =~= param_rec(obj[q].0, obj[q].1.0));
    } else {
        assert(obj.subrange(q, obj.len() as int) =~= Seq::<(u32, (u8, PVal))>::empty());
    }
}

proof fn lemma_own_param_recs(l: ListV, m: int)
    requires
        0 <= m <= l.objects.len(),
    ensures
        own_param_recs(l, m) == recs(pseq_own(l, m)),
    decreases l.objects.len() - m,
{
    if m < l.objects.len() {
        lemma_own_param_recs(l, m + 1);
        lemma_obj_param_recs(l.objects[m].1, 0);
        assert(l.objects[m].1.subrange(0, l.objects[m].1.len() as int) =~= l.objects[m].1);
        lemma_recs_add(l.objects[m].1, pseq_own(l, m + 1));
    } else {
        assert(recs(Seq::<(u32, (u8, PVal))>::empty()) =~= Seq::<u8>::empty());
    }
}

/// The parameter records of a subtree are the records of its parameters.
proof fn lemma_params_region_recs(l: ListV)
    ensures
        params_region(l) == recs(pseq(l)),
    decreases l, 1nat, 0int,
{
    lemma_params_from_recs(l, 0);
    lemma_own_param_recs(l, 0);
    lemma_recs_add(pseq_from(l, 0), pseq_own(l, 0));
}

proof fn lemma_params_from_recs(l: ListV, i: int)
    requires
        0 <= i <= l.lists.len(),
    ensures
        params_from(l, i) == recs(pseq_from(l, i)),
    decreases l, 0nat, l.lists.len() - i,
{
    if i < l.lists.len() {
        lemma_params_region_recs(l.lists[i].1);
        lemma_params_from_recs(l, i + 1);
        lemma_recs_add(pseq(l.lists[i].1), pseq_from(l, i + 1));
    } else {
        assert(recs(Seq::<(u32, (u8, PVal))>::empty()) =~= Seq::<u8>::empty());
    }
}

/// An item with a counted record index.
proof fn lemma_cnt_witness(s: Seq<Item>, r: int) -> (k: int)
    requires
        cnt(s, r) >= 1,
    ensures
        0 <= k < s.len(),
        s[k].0 == r,
    decreases s.len(),
{
    if s.last().0 == r {
        (s.len() - 1) as int
    } else {
        lemma_cnt_witness(s.drop_last(), r)
    }
}

/// Where the parameter records, the data and the strings of an archive
/// stand in `d`.
pub open spec fn sections_at(d: Seq<u8>, root: ListV, q0: int) -> bool {
    let npt = np(root) as int;
    let db = data_section(root);
    let sb = string_section(root);
    let d0 = q0 + 8 * npt;
    let s0 = d0 + db.len();
    &&& 0 <= q0
    &&& s0 + sb.len() <= d.len()
    &&& d.len() < 0x4000000
    &&& d.subrange(q0, d0) == patched_params(root)
    &&& d.subrange(d0, s0) == db
    &&& d.subrange(s0, s0 + sb.len()) == sb
}

/// The name and type of a parameter record, which the patches leave alone.
proof fn lemma_rec_fields(d: Seq<u8>, q0: int, pr0: Seq<u8>, pr2: Seq<u8>, r: int, p: (u32, (u8, PVal)))
    requires
        0 <= q0,
        0 <= r,
        8 * r + 8 <= pr2.len(),
        q0 + pr2.len() <= d.len(),
        d.subrange(q0, q0 + pr2.len()) == pr2,
        forall|x: int| 0 <= x < 8 && (x < 4 || x == 7) ==> #[trigger] pr2[8 * r + x] == pr0[8 * r + x],
        8 * r + 8 <= pr0.len(),
        pr0.subrange(8 * r, 8 * r + 8) == param_rec(p.0, p.1.0),
    ensures
        word(d, q0 + 8 * r) == p.0,
        d[q0 + 8 * r + 7] == p.1.0,
{
    assert(d.subrange(q0 + 8 * r, q0 + 8 * r + 4) =~= u32f(p.0)) by {
        assert forall|x: int| 0 <= x < 4 implies d.subrange(q0 + 8 * r, q0 + 8 * r + 4)[x] == u32f(p.0)[x] by {
            assert(pr2[8 * r + x] == pr0[8 * r + x]);
            assert(pr0.subrange(8 * r, 8 * r + 8)[x] == param_rec(p.0, p.1.0)[x]);
            assert(d[q0 + 8 * r + x] == pr2[8 * r + x]);
        }
    }
    lemma_word_at(d, q0 + 8 * r, p.0);
    assert(pr2[8 * r + 7] == pr0[8 * r + 7]);
    assert(pr0.subrange(8 * r, 8 * r + 8)[7] == param_rec(p.0, p.1.0)[7]);
    assert(d[q0 + 8 * r + 7] == pr2[8 * r + 7]);
}

/// A parameter record whose data offset was set from the data queue reads
/// back as the parameter.
#[verifier::spinoff_prover]
#[verifier::rlimit(40)]
proof fn lemma_read_data_item(
    d: Seq<u8>,
    q0: int,
    npt: int,
    pr0: Seq<u8>,
    items0: Seq<Item>,
    offs0: Seq<int>,
    items1: Seq<Item>,
    offs1: Seq<int>,
    db: Seq<u8>,
    r: int,
    k: int,
    p: (u32, (u8, PVal)),
)
    requires
        0 <= q0,
        0 <= r < npt,
        pr0.len() == 8 * npt,
        pr0.subrange(8 * r, 8 * r + 8) == param_rec(p.0, p.1.0),
        0 <= k < items0.len(),
        items0[k] == (r, p.1),
        cnt(items0.take(items0.len() as int), r) == 1,
        cnt(items1.take(items1.len() as int), r) == 0,
        offs0[k] % 4 == 0,
        buf_len_size(p.1.0) <= offs0[k] <= db.len(),
        offs0[k] - buf_len_size(p.1.0) + data_entry(p.1.0, p.1.1).len() <= db.len(),
        db.subrange(
            offs0[k] - buf_len_size(p.1.0),
            offs0[k] - buf_len_size(p.1.0) + data_entry(p.1.0, p.1.1).len(),
        ) == data_entry(p.1.0, p.1.1),
        !is_str_type(p.1.0),
        param_ok(p.1),
        q0 + 8 * npt + db.len() <= d.len() < 0x4000000,
        d.subrange(q0, q0 + 8 * npt) == str_patches(
            data_patches(pr0, items0, offs0, items0.len() as int, npt),
            items1,
            offs1,
            items1.len() as int,
            npt,
            db.len() as int,
        ),
        d.subrange(q0 + 8 * npt, q0 + 8 * npt + db.len()) == db,
    ensures
        spec_param(d, q0 + 8 * r) == Outcome::Value(p),
{
    let pr1 = data_patches(pr0, items0, offs0, items0.len() as int, npt);
    let pr2 = str_patches(pr1, items1, offs1, items1.len() as int, npt, db.len() as int);
    let d0 = q0 + 8 * npt;
    lemma_last_hit_unique(items0, items0.len() as int, r, k);
    lemma_no_hit(items1, items1.len() as int, r);
    let o = offs0[k];
    let e = data_entry(p.1.0, p.1.1);
    let st = o - buf_len_size(p.1.0);
    lemma_data_patches_keep(pr0, items0, offs0, items0.len() as int, npt, r);
    let v = 2 * (npt - r) + o / 4;
    assert(0 <= v < 0x1000000);
    lemma_data_patches_hit(pr0, items0, offs0, items0.len() as int, npt, r);
    lemma_str_patches_keep(pr1, items1, offs1, items1.len() as int, npt, db.len() as int, r);
    assert(pr2[8 * r + 4] == pr1[8 * r + 4]);
    assert(pr2[8 * r + 5] == pr1[8 * r + 5]);
    assert(pr2[8 * r + 6] == pr1[8 * r + 6]);
    assert(u24le(pr2, 8 * r + 4) == v);
    assert(u24le(d, q0 + 8 * r + 4) == u24le(pr2, 8 * r + 4)) by {
        assert(d[q0 + 8 * r + 4] == pr2[8 * r + 4]);
        assert(d[q0 + 8 * r + 5] == pr2[8 * r + 5]);
        assert(d[q0 + 8 * r + 6] == pr2[8 * r + 6]);
    }
    assert(v * 4 + q0 + 8 * r == d0 + o);
    assert(d.subrange(d0 + st, d0 + st + e.len()) =~= db.subrange(st, st + e.len()));
    lemma_param_value(d, p.1, d0 + o);
    assert forall|x: int| 0 <= x < 8 && (x < 4 || x == 7) implies #[trigger] pr2[8 * r + x] == pr0[8
        * r + x] by {
        assert(pr2[8 * r + x] == pr1[8 * r + x]);
        assert(pr1[8 * r + x] == pr0[8 * r + x]);
    }
    lemma_rec_fields(d, q0, pr0, pr2, r, p);
}

/// A parameter record whose data offset was set from the string queue
/// reads back as the parameter.
#[verifier::spinoff_prover]
#[verifier::rlimit(40)]
proof fn lemma_read_str_item(
    d: Seq<u8>,
    q0: int,
    npt: int,
    pr0: Seq<u8>,
    items0: Seq<Item>,
    offs0: Seq<int>,
    items1: Seq<Item>,
    offs1: Seq<int>,
    db: Seq<u8>,
    sb: Seq<u8>,
    r: int,
    k: int,
    p: (u32, (u8, PVal)),
)
    requires
        0 <= q0,
        0 <= r < npt,
        pr0.len() == 8 * npt,
        pr0.subrange(8 * r, 8 * r + 8) == param_rec(p.0, p.1.0),
        0 <= k < items1.len(),
        items1[k] == (r, p.1),
        cnt(items0.take(items0.len() as int), r) == 0,
        cnt(items1.take(items1.len() as int), r) == 1,
        offs1[k] % 4 == 0,
        db.len() % 4 == 0,
        0 <= offs1[k],
        offs1[k] + str_bytes(p.1.1).len() + 1 <= sb.len(),
        sb.subrange(offs1[k], offs1[k] + str_bytes(p.1.1).len() + 1) == str_bytes(p.1.1).push(0u8),
        is_str_type(p.1.0),
        param_ok(p.1),
        q0 + 8 * npt + db.len() + sb.len() <= d.len() < 0x4000000,
        d.subrange(q0, q0 + 8 * npt) == str_patches(
            data_patches(pr0, items0, offs0, items0.len() as int, npt),
            items1,
            offs1,
            items1.len() as int,
            npt,
            db.len() as int,
        ),
        d.subrange(q0 + 8 * npt + db.len(), q0 + 8 * npt + db.len() + sb.len()) == sb,
    ensures
        spec_param(d, q0 + 8 * r) == Outcome::Value(p),
{
    let pr1 = data_patches(pr0, items0, offs0, items0.len() as int, npt);
    let pr2 = str_patches(pr1, items1, offs1, items1.len() as int, npt, db.len() as int);
    let s0 = q0 + 8 * npt + db.len();
    lemma_no_hit(items0, items0.len() as int, r);
    lemma_last_hit_unique(items1, items1.len() as int, r, k);
    let o = offs1[k];
    let e = str_bytes(p.1.1).push(0u8);
    lemma_data_patches_keep(pr0, items0, offs0, items0.len() as int, npt, r);
    lemma_str_patches_keep(pr1, items1, offs1, items1.len() as int, npt, db.len() as int, r);
    let v = (8 * (npt - r) + db.len() + o) / 4;
    assert(0 <= v < 0x1000000);
    lemma_str_patches_hit(pr1, items1, offs1, items1.len() as int, npt, db.len() as int, r);
    assert(u24le(pr2, 8 * r + 4) == v);
    assert(u24le(d, q0 + 8 * r + 4) == u24le(pr2, 8 * r + 4)) by {
        assert(d[q0 + 8 * r + 4] == pr2[8 * r + 4]);
        assert(d[q0 + 8 * r + 5] == pr2[8 * r + 5]);
        assert(d[q0 + 8 * r + 6] == pr2[8 * r + 6]);
    }
    assert(v * 4 + q0 + 8 * r == s0 + o);
    assert(d.subrange(s0 + o, s0 + o + e.len()) =~= sb.subrange(o, o + e.len()));
    lemma_param_value(d, p.1, s0 + o);
    assert forall|x: int| 0 <= x < 8 && (x < 4 || x == 7) implies #[trigger] pr2[8 * r + x] == pr0[8
        * r + x] by {
        assert(pr2[8 * r + x] == pr1[8 * r + x]);
        assert(pr1[8 * r + x] == pr0[8 * r + x]);
    }
    lemma_rec_fields(d, q0, pr0, pr2, r, p);
}

/// A parameter record of a written archive reads back as the parameter.
#[verifier::spinoff_prover]
#[verifier::rlimit(60)]
pub(crate) proof fn lemma_read_param(d: Seq<u8>, root: ListV, q0: int, r: int)
    requires
        sections_at(d, root, q0),
        forall|j: int| 0 <= j < np(root) ==> param_ok(#[trigger] pseq(root)[j].1),
        0 <= r < np(root),
    ensures
        spec_param(d, q0 + 8 * r) == Outcome::Value(pseq(root)[r]),
{
    let npt = np(root) as int;
    let q = collect(root, true, 0);
    let dr = data_run(q.0, q.0.len() as int);
    let sr = str_run(q.1, q.1.len() as int);
    let pr0 = params_region(root);
    lemma_sections_def(root);
    collect_queues_each_parameter_once(root);
    assert(qcnt(q, r) == 1);
    lemma_params_len(root);
    lemma_params_region_recs(root);
    lemma_pseq(root);
    lemma_recs_index(pseq(root), r);
    lemma_data_run_content(q.0, q.0.len() as int);
    lemma_str_run_content(q.1, q.1.len() as int);
    assert(q.0.take(q.0.len() as int) =~= q.0);
    assert(q.1.take(q.1.len() as int) =~= q.1);
    let p = pseq(root)[r];
    assert(param_ok(p.1));
    if cnt(q.0, r) >= 1 {
        let k = lemma_cnt_witness(q.0, r);
        assert(item_of(root, 0, q.0[k]));
        assert(!is_str_type(q.0[k].1.0));
        let o = dr.1[k];
        let e = data_entry(q.0[k].1.0, q.0[k].1.1);
        assert(o <= dr.0.len()) by {
            if is_buf_type(q.0[k].1.0) {
                assert(e.len() >= 4);
            }
        }
        lemma_read_data_item(d, q0, npt, pr0, q.0, dr.1, q.1, sr.1, dr.0, r, k, p);
    } else {
        let k = lemma_cnt_witness(q.1, r);
        assert(item_of(root, 0, q.1[k]));
        assert(is_str_type(q.1[k].1.0));
        lemma_read_str_item(d, q0, npt, pr0, q.0, dr.1, q.1, sr.1, dr.0, sr.0, r, k, p);
    }
}

} // verus!
