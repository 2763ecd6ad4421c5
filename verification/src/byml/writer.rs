//! Writing BYML documents to bytes.
use vstd::prelude::*;
use vstd::utf8::encode_utf8;
use crate::{Endian, Error, Result};
use crate::util::{push_u16, push_u32, spec_u16_bytes, spec_u24_bytes, spec_u32_bytes};
use super::{ByNode, Byml, NodeType, spec_node_tag};

verus! {

/// `a` comes before `b` when compared byte by byte, a prefix first.
pub open spec fn bytes_lt(a: Seq<u8>, b: Seq<u8>) -> bool
    decreases a.len(),
{
    if b.len() == 0 {
        false
    } else if a.len() == 0 {
        true
    } else if a[0] != b[0] {
        a[0] < b[0]
    } else {
        bytes_lt(a.drop_first(), b.drop_first())
    }
}

/// The order of strings by their UTF-8 bytes, which is the order of `Ord`
/// for strings.
pub open spec fn str_lt(a: Seq<char>, b: Seq<char>) -> bool {
    bytes_lt(encode_utf8(a), encode_utf8(b))
}

/// Each string comes before the next: in order, none twice.
pub open spec fn strictly_sorted(t: Seq<Seq<char>>) -> bool {
    forall|i: int, j: int| 0 <= i < j < t.len() ==> str_lt(t[i], t[j])
}

/// The characters of each string.
pub open spec fn views(v: Seq<String>) -> Seq<Seq<char>> {
    v.map_values(|s: String| s@)
}

pub(crate) proof fn lemma_bytes_lt_irrefl(a: Seq<u8>)
    ensures
        !bytes_lt(a, a),
    decreases a.len(),
{
    if a.len() > 0 {
        lemma_bytes_lt_irrefl(a.drop_first());
    }
}

pub(crate) proof fn lemma_bytes_lt_trans(a: Seq<u8>, b: Seq<u8>, c: Seq<u8>)
    requires
        bytes_lt(a, b),
        bytes_lt(b, c),
    ensures
        bytes_lt(a, c),
    decreases a.len(),
{
    if a.len() > 0 && b.len() > 0 && c.len() > 0 && a[0] == b[0] && b[0] == c[0] {
        lemma_bytes_lt_trans(a.drop_first(), b.drop_first(), c.drop_first());
    }
}

pub(crate) proof fn lemma_bytes_lt_total(a: Seq<u8>, b: Seq<u8>)
    ensures
        a == b || bytes_lt(a, b) || bytes_lt(b, a),
    decreases a.len(),
{
    if a.len() > 0 && b.len() > 0 && a[0] == b[0] {
        lemma_bytes_lt_total(a.drop_first(), b.drop_first());
        if a.drop_first() == b.drop_first() {
            assert(a =~= seq![a[0]] + a.drop_first());
            assert(b =~= seq![b[0]] + b.drop_first());
        }
    } else if a.len() == 0 && b.len() == 0 {
        assert(a =~= b);
    }
}

pub(crate) proof fn lemma_str_lt_total(a: Seq<char>, b: Seq<char>)
    ensures
        a == b || str_lt(a, b) || str_lt(b, a),
{
    broadcast use vstd::utf8::encode_utf8_decode_utf8;

    lemma_bytes_lt_total(encode_utf8(a), encode_utf8(b));
    if encode_utf8(a) == encode_utf8(b) {
        assert(vstd::utf8::decode_utf8(encode_utf8(a)) == a);
        assert(vstd::utf8::decode_utf8(encode_utf8(b)) == b);
    }
}

/// Compares two byte strings in the order of `bytes_lt`.
fn bytes_less(a: &[u8], b: &[u8]) -> (r: bool)
    ensures
        r == bytes_lt(a@, b@),
{
    let mut i: usize = 0;
    assert(a@.subrange(0, a@.len() as int) =~= a@);
    assert(b@.subrange(0, b@.len() as int) =~= b@);
    while i < a.len() && i < b.len() && a[i] == b[i]
        invariant
            i <= a@.len(),
            i <= b@.len(),
            bytes_lt(a@, b@) == bytes_lt(a@.subrange(i as int, a@.len() as int), b@.subrange(
                i as int,
                b@.len() as int,
            )),
        decreases a@.len() - i,
    {
        let ghost sa = a@.subrange(i as int, a@.len() as int);
        let ghost sb = b@.subrange(i as int, b@.len() as int);
        assert(sa.drop_first() =~= a@.subrange(i + 1, a@.len() as int));
        assert(sb.drop_first() =~= b@.subrange(i + 1, b@.len() as int));
        i = i + 1;
    }
    if i >= b.len() {
        false
    } else if i >= a.len() {
        true
    } else {
        a[i] < b[i]
    }
}

/// Adds a string to a table that is in order, keeping it in order.
fn table_insert(t: &mut Vec<String>, s: &String)
    requires
        strictly_sorted(views(old(t)@)),
    ensures
        strictly_sorted(views(final(t)@)),
        forall|x: Seq<char>|
            #[trigger] views(final(t)@).contains(x) <==> (views(old(t)@).contains(x) || x == s@),
{
    let ghost old_v = views(t@);
    let mut j: usize = 0;
    let mut done = false;
    while !done && j < t.len()
        invariant
            views(t@) == old_v,
            strictly_sorted(old_v),
            j <= t@.len(),
            forall|k: int| 0 <= k < j ==> str_lt(#[trigger] old_v[k], s@),
            done ==> j < t@.len() && !str_lt(old_v[j as int], s@),
        decreases t@.len() - j + (if done {
            0int
        } else {
            1int
        }),
    {
        if bytes_less(t[j].as_str().as_bytes(), s.as_str().as_bytes()) {
            j = j + 1;
        } else {
            done = true;
        }
    }
    if j < t.len() && t[j] == *s {
        assert(old_v.contains(s@)) by {
            assert(old_v[j as int] == s@);
        }
        return;
    }
    let ghost sv = s@;
    t.insert(j, s.clone());
    proof {
        let nv = views(t@);
        assert(nv =~= old_v.insert(j as int, sv));
        if j < old_v.len() {
            lemma_str_lt_total(old_v[j as int], sv);
        }
        assert forall|a: int, b: int| 0 <= a < b < nv.len() implies str_lt(nv[a], nv[b]) by {
            if b < j {
            } else if a > j {
                assert(nv[a] == old_v[a - 1] && nv[b] == old_v[b - 1]);
            } else if b == j {
                assert(nv[a] == old_v[a]);
            } else if a == j {
                assert(nv[b] == old_v[b - 1]);
                if b - 1 > j {
                    assert(str_lt(old_v[j as int], old_v[b - 1]));
                    lemma_bytes_lt_trans(
                        encode_utf8(sv),
                        encode_utf8(old_v[j as int]),
                        encode_utf8(old_v[b - 1]),
                    );
                }
            } else {
                assert(a < j < b);
                assert(nv[a] == old_v[a] && nv[b] == old_v[b - 1]);
            }
        }
        assert forall|x: Seq<char>| nv.contains(x) <==> (old_v.contains(x) || x == sv) by {
            if nv.contains(x) {
                let k = choose|k: int| 0 <= k < nv.len() && nv[k] == x;
                if k < j {
                    assert(old_v[k] == x);
                } else if k > j {
                    assert(old_v[k - 1] == x);
                }
            }
            if old_v.contains(x) {
                let k = choose|k: int| 0 <= k < old_v.len() && old_v[k] == x;
                if k < j {
                    assert(nv[k] == x);
                } else {
                    assert(nv[k + 1] == x);
                }
            }
            if x == sv {
                assert(nv[j as int] == x);
            }
        }
    }
}

/// A string value occurs in the node.
pub open spec fn has_string(n: ByNode, x: Seq<char>) -> bool
    decreases n,
{
    match n {
        ByNode::String(s) => s == x,
        ByNode::Array(items) => exists|i: int| 0 <= i < items.len() && has_string(items[i], x),
        ByNode::Hash(es) => exists|i: int| 0 <= i < es.len() && has_string(es[i].1, x),
        _ => false,
    }
}

/// A hash key occurs in the node.
pub open spec fn has_key(n: ByNode, x: Seq<char>) -> bool
    decreases n,
{
    match n {
        ByNode::Array(items) => exists|i: int| 0 <= i < items.len() && has_key(items[i], x),
        ByNode::Hash(es) => exists|i: int|
            0 <= i < es.len() && (es[i].0 == x || has_key(es[i].1, x)),
        _ => false,
    }
}

/// Adds the strings and the hash keys that occur in a node to two tables
/// that are in order.
fn collect(n: &Byml, strings: &mut Vec<String>, keys: &mut Vec<String>)
    requires
        strictly_sorted(views(old(strings)@)),
        strictly_sorted(views(old(keys)@)),
    ensures
        strictly_sorted(views(final(strings)@)),
        strictly_sorted(views(final(keys)@)),
        forall|x: Seq<char>|
            #[trigger] views(final(strings)@).contains(x) <==> (views(old(strings)@).contains(x) || has_string(
                n.node(),
                x,
            )),
        forall|x: Seq<char>|
            #[trigger] views(final(keys)@).contains(x) <==> (views(old(keys)@).contains(x) || has_key(
                n.node(),
                x,
            )),
    decreases n,
{
    let ghost s0 = views(strings@);
    let ghost k0 = views(keys@);
    match n {
        Byml::String(s) => {
            table_insert(strings, s);
            assert(n.node() == ByNode::String(s@));
            assert(forall|x: Seq<char>| !has_key(n.node(), x));
        },
        Byml::Array(items) => {
            let ghost nodes = n.node()->Array_0;
            let mut i: usize = 0;
            while i < items.len()
                invariant
                    *n == Byml::Array(*items),
                    i <= items@.len(),
                    nodes.len() == items@.len(),
                    forall|k: int| 0 <= k < items@.len() ==> nodes[k] == (#[trigger] items@[k]).node(),
                    strictly_sorted(views(strings@)),
                    strictly_sorted(views(keys@)),
                    forall|x: Seq<char>|
                        #[trigger] views(strings@).contains(x) <==> (s0.contains(x) || exists|k: int|
                            0 <= k < i && has_string(nodes[k], x)),
                    forall|x: Seq<char>|
                        #[trigger] views(keys@).contains(x) <==> (k0.contains(x) || exists|k: int|
                            0 <= k < i && has_key(nodes[k], x)),
                decreases items@.len() - i,
            {
                let ghost sb = views(strings@);
                let ghost kb = views(keys@);
                proof {
                    assert(decreases_to!(*n => n->Array_0));
                    assert(n->Array_0 == *items);
                    assert(decreases_to!(*items => items@));
                    assert(decreases_to!(items@ => items@[i as int]));
                }
                collect(&items[i], strings, keys);
                proof {
                    assert(nodes[i as int] == items@[i as int].node());
                    assert forall|x: Seq<char>|
                        #[trigger] views(strings@).contains(x) <==> (s0.contains(x) || exists|k: int|
                            0 <= k < i + 1 && has_string(nodes[k], x)) by {
                        if views(strings@).contains(x) {
                            if sb.contains(x) {
                            } else {
                                assert(has_string(nodes[i as int], x));
                            }
                        }
                        if exists|k: int| 0 <= k < i + 1 && has_string(nodes[k], x) {
                            let k = choose|k: int| 0 <= k < i + 1 && has_string(nodes[k], x);
                            if k < i {
                                assert(exists|kk: int| 0 <= kk < i && has_string(nodes[kk], x));
                                assert(sb.contains(x));
                            }
                        }
                    }
                    assert forall|x: Seq<char>|
                        #[trigger] views(keys@).contains(x) <==> (k0.contains(x) || exists|k: int|
                            0 <= k < i + 1 && has_key(nodes[k], x)) by {
                        if exists|k: int| 0 <= k < i + 1 && has_key(nodes[k], x) {
                            let k = choose|k: int| 0 <= k < i + 1 && has_key(nodes[k], x);
                            if k < i {
                            }
                        }
                    }
                }
                i = i + 1;
            }
        },
        Byml::Hash(es) => {
            let ghost ens = n.node()->Hash_0;
            let mut i: usize = 0;
            while i < es.len()
                invariant
                    *n == Byml::Hash(*es),
                    i <= es@.len(),
                    ens.len() == es@.len(),
                    forall|k: int|
                        0 <= k < es@.len() ==> ens[k] == ((#[trigger] es@[k]).0@, es@[k].1.node()),
                    strictly_sorted(views(strings@)),
                    strictly_sorted(views(keys@)),
                    forall|x: Seq<char>|
                        #[trigger] views(strings@).contains(x) <==> (s0.contains(x) || exists|k: int|
                            0 <= k < i && has_string(ens[k].1, x)),
                    forall|x: Seq<char>|
                        #[trigger] views(keys@).contains(x) <==> (k0.contains(x) || exists|k: int|
                            0 <= k < i && (ens[k].0 == x || has_key(ens[k].1, x))),
                decreases es@.len() - i,
            {
                let ghost sb = views(strings@);
                let ghost kb = views(keys@);
                table_insert(keys, &es[i].0);
                let ghost kc = views(keys@);
                proof {
                    assert(decreases_to!(*n => n->Hash_0));
                    assert(n->Hash_0 == *es);
                    assert(decreases_to!(*es => es@));
                    assert(decreases_to!(es@ => es@[i as int]));
                    assert(decreases_to!(es@[i as int] => es@[i as int].1));
                }
                collect(&es[i].1, strings, keys);
                proof {
                    assert(ens[i as int] == (es@[i as int].0@, es@[i as int].1.node()));
                    assert forall|x: Seq<char>|
                        #[trigger] views(strings@).contains(x) <==> (s0.contains(x) || exists|k: int|
                            0 <= k < i + 1 && has_string(ens[k].1, x)) by {
                        if views(strings@).contains(x) {
                            if sb.contains(x) {
                            } else {
                                assert(has_string(ens[i as int].1, x));
                            }
                        }
                        if exists|k: int| 0 <= k < i + 1 && has_string(ens[k].1, x) {
                            let k = choose|k: int| 0 <= k < i + 1 && has_string(ens[k].1, x);
                            if k < i {
                                assert(exists|kk: int| 0 <= kk < i && has_string(ens[kk].1, x));
                                assert(sb.contains(x));
                            }
                        }
                    }
                    assert forall|x: Seq<char>|
                        #[trigger] views(keys@).contains(x) <==> (k0.contains(x) || exists|k: int|
                            0 <= k < i + 1 && (ens[k].0 == x || has_key(ens[k].1, x))) by {
                        if ens[i as int].0 == x || has_key(ens[i as int].1, x) {
                        }
                        if exists|k: int| 0 <= k < i + 1 && (ens[k].0 == x || has_key(ens[k].1, x)) {
                            let k = choose|k: int|
                                0 <= k < i + 1 && (ens[k].0 == x || has_key(ens[k].1, x));
                            if k < i {
                            }
                        }
                    }
                }
                i = i + 1;
            }
        },
        _ => {},
    }
}

/// The node type of a value.
pub open spec fn type_of(n: ByNode) -> NodeType {
    match n {
        ByNode::String(_) => NodeType::String,
        ByNode::BinaryData(_) => NodeType::Binary,
        ByNode::Array(_) => NodeType::Array,
        ByNode::Hash(_) => NodeType::Hash,
        ByNode::Bool(_) => NodeType::Bool,
        ByNode::I32(_) => NodeType::I32,
        ByNode::Float(_) => NodeType::Float,
        ByNode::U32(_) => NodeType::U32,
        ByNode::I64(_) => NodeType::I64,
        ByNode::U64(_) => NodeType::U64,
        ByNode::Double(_) => NodeType::Double,
        ByNode::Null => NodeType::Null,
    }
}

/// Values written in their slot; the others are written after their
/// container, and their slot holds where.
pub open spec fn is_inline(n: ByNode) -> bool {
    !(n is BinaryData || n is Array || n is Hash || n is I64 || n is U64 || n is Double)
}

/// The padding that brings `n` to a multiple of 4.
pub open spec fn pad4(n: int) -> int {
    (4 - n % 4) % 4
}

/// `k` zero bytes.
pub open spec fn zeros(k: int) -> Seq<u8> {
    Seq::new(k as nat, |i: int| 0u8)
}

/// The length of a container's head: its header and its types and slots,
/// or its entries.
pub open spec fn head_len(n: ByNode) -> int {
    match n {
        ByNode::Array(items) => 4 + items.len() + pad4(items.len() as int) + 4 * items.len(),
        ByNode::Hash(es) => 4 + 8 * es.len() as int,
        _ => 0,
    }
}

/// The bytes that a value takes out of line, with those of the values that
/// it holds; none for a value written in its slot.
pub open spec fn node_size(n: ByNode) -> nat
    decreases n, 0nat,
{
    match n {
        ByNode::Array(items) => (head_len(n) + items_size(items, items.len() as int)) as nat,
        ByNode::Hash(es) => (head_len(n) + entries_size(es, es.len() as int)) as nat,
        ByNode::BinaryData(b) => 4 + b.len(),
        ByNode::I64(_) => 8,
        ByNode::U64(_) => 8,
        ByNode::Double(_) => 8,
        _ => 0,
    }
}

/// The out-of-line bytes of the first `k` items.
pub open spec fn items_size(items: Seq<ByNode>, k: int) -> nat
    decreases items, k,
{
    if k <= 0 || k > items.len() {
        0
    } else {
        items_size(items, k - 1) + node_size(items[k - 1])
    }
}

/// The out-of-line bytes of the values of the first `k` entries.
pub open spec fn entries_size(es: Seq<(Seq<char>, ByNode)>, k: int) -> nat
    decreases es, k,
{
    if k <= 0 || k > es.len() {
        0
    } else {
        entries_size(es, k - 1) + node_size(es[k - 1].1)
    }
}

/// What the writer knows besides the node: the byte order and the two
/// string tables.
pub struct WCtx {
    pub e: Endian,
    pub keys: Seq<Seq<char>>,
    pub strings: Seq<Seq<char>>,
}

/// Where a string stands in a table.
pub open spec fn index_in(t: Seq<Seq<char>>, x: Seq<char>) -> int {
    choose|i: int| 0 <= i < t.len() && t[i] == x
}

/// The 64-bit integer as eight bytes.
pub open spec fn spec_u64_bytes(x: u64, e: Endian) -> Seq<u8> {
    let hi = (x / 0x1_0000_0000) as u32;
    let lo = (x % 0x1_0000_0000) as u32;
    match e {
        Endian::Big => spec_u32_bytes(hi, e) + spec_u32_bytes(lo, e),
        Endian::Little => spec_u32_bytes(lo, e) + spec_u32_bytes(hi, e),
    }
}

/// What a slot holds: the value itself, or, for a value written out of
/// line, where it is written.
pub open spec fn slot_value(n: ByNode, at: int, w: WCtx) -> u32 {
    match n {
        ByNode::String(s) => index_in(w.strings, s) as u32,
        ByNode::Bool(b) => if b {
            1
        } else {
            0
        },
        ByNode::I32(x) => x as u32,
        ByNode::U32(x) => x,
        ByNode::Float(x) => x,
        ByNode::Null => 0,
        _ => at as u32,
    }
}

/// The type bytes of an array's items.
pub open spec fn type_bytes(items: Seq<ByNode>) -> Seq<u8> {
    Seq::new(items.len(), |i: int| spec_node_tag(type_of(items[i])))
}

/// The slots of the first `k` items, whose out-of-line values start at `cb`.
pub open spec fn item_slots(items: Seq<ByNode>, k: int, cb: int, w: WCtx) -> Seq<u8>
    decreases k,
{
    if k <= 0 || k > items.len() {
        Seq::empty()
    } else {
        item_slots(items, k - 1, cb, w) + spec_u32_bytes(
            slot_value(items[k - 1], cb + items_size(items, k - 1), w),
            w.e,
        )
    }
}

/// The entries of a hash: key index, type and slot each.
pub open spec fn entry_heads(es: Seq<(Seq<char>, ByNode)>, k: int, cb: int, w: WCtx) -> Seq<u8>
    decreases k,
{
    if k <= 0 || k > es.len() {
        Seq::empty()
    } else {
        entry_heads(es, k - 1, cb, w) + spec_u24_bytes(index_in(w.keys, es[k - 1].0) as u32, w.e)
            + seq![spec_node_tag(type_of(es[k - 1].1))] + spec_u32_bytes(
            slot_value(es[k - 1].1, cb + entries_size(es, k - 1), w),
            w.e,
        )
    }
}

/// A value written out of line at `base`, followed by the values that it
/// holds, each where its slot says.
pub open spec fn enc(n: ByNode, base: int, w: WCtx) -> Seq<u8>
    decreases n, 0nat,
{
    match n {
        ByNode::Array(items) => {
            let cb = base + head_len(n);
            seq![0xC0u8] + spec_u24_bytes(items.len() as u32, w.e) + type_bytes(items) + zeros(
                pad4(items.len() as int),
            ) + item_slots(items, items.len() as int, cb, w) + item_data(
                items,
                items.len() as int,
                cb,
                w,
            )
        },
        ByNode::Hash(es) => {
            let cb = base + head_len(n);
            seq![0xC1u8] + spec_u24_bytes(es.len() as u32, w.e) + entry_heads(
                es,
                es.len() as int,
                cb,
                w,
            ) + entry_data(es, es.len() as int, cb, w)
        },
        ByNode::BinaryData(b) => spec_u32_bytes(b.len() as u32, w.e) + b,
        ByNode::I64(x) => spec_u64_bytes(x as u64, w.e),
        ByNode::U64(x) => spec_u64_bytes(x, w.e),
        ByNode::Double(x) => spec_u64_bytes(x, w.e),
        _ => Seq::empty(),
    }
}

/// The out-of-line values of the first `k` items, from `cb` on.
pub open spec fn item_data(items: Seq<ByNode>, k: int, cb: int, w: WCtx) -> Seq<u8>
    decreases items, k,
{
    if k <= 0 || k > items.len() {
        Seq::empty()
    } else {
        item_data(items, k - 1, cb, w) + enc(items[k - 1], cb + items_size(items, k - 1), w)
    }
}

/// The out-of-line values of the first `k` entries, from `cb` on.
pub open spec fn entry_data(es: Seq<(Seq<char>, ByNode)>, k: int, cb: int, w: WCtx) -> Seq<u8>
    decreases es, k,
{
    if k <= 0 || k > es.len() {
        Seq::empty()
    } else {
        entry_data(es, k - 1, cb, w) + enc(es[k - 1].1, cb + entries_size(es, k - 1), w)
    }
}

/// The bytes that the first `i` strings of a table take, each with its NUL.
pub open spec fn strs_len(t: Seq<Seq<char>>, i: int) -> nat
    decreases i,
{
    if i <= 0 || i > t.len() {
        0
    } else {
        strs_len(t, i - 1) + encode_utf8(t[i - 1]).len() + 1
    }
}

/// The first `k` offsets of a string table, from its start: one for each
/// string and one for the end.
pub open spec fn table_offsets(t: Seq<Seq<char>>, k: int, e: Endian) -> Seq<u8>
    decreases k,
{
    if k <= 0 || k > t.len() + 1 {
        Seq::empty()
    } else {
        table_offsets(t, k - 1, e) + spec_u32_bytes((4 + 4 * (t.len() + 1) + strs_len(t, k - 1)) as u32, e)
    }
}

/// The first `k` strings of a table, each with its NUL.
pub open spec fn table_strs(t: Seq<Seq<char>>, k: int) -> Seq<u8>
    decreases k,
{
    if k <= 0 || k > t.len() {
        Seq::empty()
    } else {
        table_strs(t, k - 1) + encode_utf8(t[k - 1]).push(0)
    }
}

/// The length of a string table before its padding.
pub open spec fn table_unpadded(t: Seq<Seq<char>>) -> int {
    4 + 4 * (t.len() + 1) as int + strs_len(t, t.len() as int)
}

/// The length of a string table with its padding.
pub open spec fn table_size(t: Seq<Seq<char>>) -> int {
    table_unpadded(t) + pad4(table_unpadded(t))
}

/// A string table node.
pub open spec fn table_bytes(t: Seq<Seq<char>>, e: Endian) -> Seq<u8> {
    seq![0xC2u8] + spec_u24_bytes(t.len() as u32, e) + table_offsets(t, t.len() + 1 as int, e) + table_strs(
        t,
        t.len() as int,
    ) + zeros(pad4(table_unpadded(t)))
}

/// The bytes that a table takes in a document: none when it is empty.
pub open spec fn table_space(t: Seq<Seq<char>>) -> int {
    if t.len() > 0 {
        table_size(t)
    } else {
        0
    }
}

/// Where a document's root starts.
pub open spec fn root_offset(w: WCtx) -> int {
    0x10 + table_space(w.keys) + table_space(w.strings)
}

/// The document header: magic, version, and the offsets of the hash key
/// table, the string table and the root.
pub open spec fn header_bytes(e: Endian, version: u16, keys: u32, strings: u32, root: u32) -> Seq<u8> {
    let magic = match e {
        Endian::Big => seq![0x42u8, 0x59u8],
        Endian::Little => seq![0x59u8, 0x42u8],
    };
    magic + spec_u16_bytes(version, e) + spec_u32_bytes(keys, e) + spec_u32_bytes(strings, e)
        + spec_u32_bytes(root, e)
}

/// A document: the header alone for a null root; else the header, the hash
/// key table and the string table where they are not empty, then the root.
pub open spec fn doc_bytes(n: ByNode, w: WCtx, version: u16) -> Seq<u8> {
    if n is Null {
        header_bytes(w.e, version, 0, 0, 0)
    } else {
        let koff: u32 = if w.keys.len() > 0 {
            0x10
        } else {
            0
        };
        let soff: u32 = if w.strings.len() > 0 {
            (0x10 + table_space(w.keys)) as u32
        } else {
            0
        };
        header_bytes(w.e, version, koff, soff, root_offset(w) as u32) + (if w.keys.len() > 0 {
            table_bytes(w.keys, w.e)
        } else {
            Seq::empty()
        }) + (if w.strings.len() > 0 {
            table_bytes(w.strings, w.e)
        } else {
            Seq::empty()
        }) + enc(n, root_offset(w), w)
    }
}

/// The two tables of a node: its hash keys and its string values, each in
/// order and once.
pub open spec fn tables_of(n: ByNode, w: WCtx) -> bool {
    &&& strictly_sorted(w.keys)
    &&& strictly_sorted(w.strings)
    &&& forall|x: Seq<char>| #[trigger] w.keys.contains(x) <==> has_key(n, x)
    &&& forall|x: Seq<char>| #[trigger] w.strings.contains(x) <==> has_string(n, x)
}

/// Every container holds fewer than 2^24 values, what its 24-bit count can
/// say.
pub open spec fn counts_fit(n: ByNode) -> bool
    decreases n,
{
    match n {
        ByNode::Array(items) => items.len() < 0x100_0000 && forall|i: int|
            0 <= i < items.len() ==> counts_fit(#[trigger] items[i]),
        ByNode::Hash(es) => es.len() < 0x100_0000 && forall|i: int|
            0 <= i < es.len() ==> counts_fit(#[trigger] es[i].1),
        _ => true,
    }
}

pub(crate) proof fn lemma_item_slots_len(items: Seq<ByNode>, k: int, cb: int, w: WCtx)
    requires
        0 <= k <= items.len(),
    ensures
        item_slots(items, k, cb, w).len() == 4 * k,
    decreases k,
{
    if k > 0 {
        lemma_item_slots_len(items, k - 1, cb, w);
    }
}

pub(crate) proof fn lemma_entry_heads_len(es: Seq<(Seq<char>, ByNode)>, k: int, cb: int, w: WCtx)
    requires
        0 <= k <= es.len(),
    ensures
        entry_heads(es, k, cb, w).len() == 8 * k,
    decreases k,
{
    if k > 0 {
        lemma_entry_heads_len(es, k - 1, cb, w);
    }
}

pub(crate) proof fn lemma_enc_len(n: ByNode, base: int, w: WCtx)
    ensures
        enc(n, base, w).len() == node_size(n),
    decreases n, 0nat,
{
    match n {
        ByNode::Array(items) => {
            lemma_item_slots_len(items, items.len() as int, base + head_len(n), w);
            lemma_item_data_len(items, items.len() as int, base + head_len(n), w);
        },
        ByNode::Hash(es) => {
            lemma_entry_heads_len(es, es.len() as int, base + head_len(n), w);
            lemma_entry_data_len(es, es.len() as int, base + head_len(n), w);
        },
        _ => {},
    }
}

pub(crate) proof fn lemma_item_data_len(items: Seq<ByNode>, k: int, cb: int, w: WCtx)
    ensures
        item_data(items, k, cb, w).len() == items_size(items, k),
    decreases items, k,
{
    if 0 < k <= items.len() {
        lemma_item_data_len(items, k - 1, cb, w);
        lemma_enc_len(items[k - 1], cb + items_size(items, k - 1), w);
    }
}

pub(crate) proof fn lemma_entry_data_len(es: Seq<(Seq<char>, ByNode)>, k: int, cb: int, w: WCtx)
    ensures
        entry_data(es, k, cb, w).len() == entries_size(es, k),
    decreases es, k,
{
    if 0 < k <= es.len() {
        lemma_entry_data_len(es, k - 1, cb, w);
        lemma_enc_len(es[k - 1].1, cb + entries_size(es, k - 1), w);
    }
}

pub(crate) proof fn lemma_items_size_mono(items: Seq<ByNode>, i: int, j: int)
    requires
        0 <= i <= j <= items.len(),
    ensures
        items_size(items, i) <= items_size(items, j),
    decreases j - i,
{
    if i < j {
        lemma_items_size_mono(items, i, j - 1);
    }
}

pub(crate) proof fn lemma_entries_size_mono(es: Seq<(Seq<char>, ByNode)>, i: int, j: int)
    requires
        0 <= i <= j <= es.len(),
    ensures
        entries_size(es, i) <= entries_size(es, j),
    decreases j - i,
{
    if i < j {
        lemma_entries_size_mono(es, i, j - 1);
    }
}

/// The out-of-line size of a node.
fn size_of(n: &Byml) -> (r: u64)
    requires
        node_size(n.node()) <= u32::MAX,
    ensures
        r == node_size(n.node()),
    decreases n,
{
    match n {
        Byml::Array(items) => {
            let ghost nodes = n.node()->Array_0;
            let len = items.len() as u64;
            let mut acc: u64 = 0;
            let mut i: usize = 0;
            while i < items.len()
                invariant
                    *n == Byml::Array(*items),
                    n.node() == ByNode::Array(nodes),
                    nodes.len() == items@.len(),
                    forall|k: int| 0 <= k < items@.len() ==> nodes[k] == (#[trigger] items@[k]).node(),
                    i <= items@.len(),
                    acc == items_size(nodes, i as int),
                    node_size(n.node()) <= u32::MAX,
                decreases items@.len() - i,
            {
                proof {
                    lemma_items_size_mono(nodes, i + 1, nodes.len() as int);
                    assert(decreases_to!(*n => n->Array_0));
                    assert(decreases_to!(*items => items@));
                    assert(decreases_to!(items@ => items@[i as int]));
                    assert(nodes[i as int] == items@[i as int].node());
                }
                let s = size_of(&items[i]);
                acc = acc + s;
                i = i + 1;
            }
            4 + len + (4 - len % 4) % 4 + 4 * len + acc
        },
        Byml::Hash(es) => {
            let ghost ens = n.node()->Hash_0;
            let len = es.len() as u64;
            let mut acc: u64 = 0;
            let mut i: usize = 0;
            while i < es.len()
                invariant
                    *n == Byml::Hash(*es),
                    n.node() == ByNode::Hash(ens),
                    ens.len() == es@.len(),
                    forall|k: int|
                        0 <= k < es@.len() ==> ens[k] == ((#[trigger] es@[k]).0@, es@[k].1.node()),
                    i <= es@.len(),
                    acc == entries_size(ens, i as int),
                    node_size(n.node()) <= u32::MAX,
                decreases es@.len() - i,
            {
                proof {
                    lemma_entries_size_mono(ens, i + 1, ens.len() as int);
                    assert(decreases_to!(*n => n->Hash_0));
                    assert(decreases_to!(*es => es@));
                    assert(decreases_to!(es@ => es@[i as int]));
                    assert(decreases_to!(es@[i as int] => es@[i as int].1));
                    assert(ens[i as int].1 == es@[i as int].1.node());
                }
                let s = size_of(&es[i].1);
                acc = acc + s;
                i = i + 1;
            }
            4 + 8 * len + acc
        },
        Byml::BinaryData(b) => 4 + b.len() as u64,
        Byml::I64(_) => 8,
        Byml::U64(_) => 8,
        Byml::Double(_) => 8,
        _ => 0,
    }
}

pub(crate) proof fn lemma_child_strings(items: Seq<ByNode>, i: int, x: Seq<char>)
    requires
        0 <= i < items.len(),
    ensures
        has_string(items[i], x) ==> has_string(ByNode::Array(items), x),
        has_key(items[i], x) ==> has_key(ByNode::Array(items), x),
{
    let a = ByNode::Array(items);
    assert(decreases_to!(a => a->Array_0));
    assert(decreases_to!(items => items[i]));
    if has_string(items[i], x) {
        assert(0 <= i < items.len() && has_string(items[i], x));
        assert(exists|k: int| 0 <= k < items.len() && has_string(items[k], x));
    }
    if has_key(items[i], x) {
        assert(exists|k: int| 0 <= k < items.len() && has_key(items[k], x));
    }
}

pub(crate) proof fn lemma_entry_strings(es: Seq<(Seq<char>, ByNode)>, i: int, x: Seq<char>)
    requires
        0 <= i < es.len(),
    ensures
        has_string(es[i].1, x) ==> has_string(ByNode::Hash(es), x),
        has_key(es[i].1, x) ==> has_key(ByNode::Hash(es), x),
        es[i].0 == x ==> has_key(ByNode::Hash(es), x),
{
    let h = ByNode::Hash(es);
    assert(decreases_to!(h => h->Hash_0));
    assert(decreases_to!(es => es[i]));
    assert(decreases_to!(es[i] => es[i].1));
    if has_string(es[i].1, x) {
        assert(exists|k: int| 0 <= k < es.len() && has_string(es[k].1, x));
    }
    if has_key(es[i].1, x) {
        assert(exists|k: int| 0 <= k < es.len() && (es[k].0 == x || has_key(es[k].1, x)));
    }
}

/// The two string tables of a document being written, in order.
struct Tables {
    e: Endian,
    keys: Vec<String>,
    strings: Vec<String>,
}

/// The tables hold what the context says, in order, and each has fewer
/// than 2^24 strings.
spec fn tables_match(tb: &Tables, w: WCtx) -> bool {
    &&& tb.e == w.e
    &&& views(tb.keys@) == w.keys
    &&& views(tb.strings@) == w.strings
    &&& strictly_sorted(w.keys)
    &&& strictly_sorted(w.strings)
    &&& w.keys.len() < 0x100_0000
    &&& w.strings.len() < 0x100_0000
}

fn push_u24(out: &mut Vec<u8>, x: u32, e: Endian)
    requires
        x < 0x100_0000,
    ensures
        final(out)@ == old(out)@ + spec_u24_bytes(x, e),
{
    let lo = (x % 256) as u8;
    let mid = ((x / 256) % 256) as u8;
    let hi = ((x / 65536) % 256) as u8;
    match e {
        Endian::Little => {
            out.push(lo);
            out.push(mid);
            out.push(hi);
        },
        Endian::Big => {
            out.push(hi);
            out.push(mid);
            out.push(lo);
        },
    }
    assert(final(out)@ =~= old(out)@ + spec_u24_bytes(x, e));
}

fn push_u64(out: &mut Vec<u8>, x: u64, e: Endian)
    ensures
        final(out)@ == old(out)@ + spec_u64_bytes(x, e),
{
    let hi = (x / 0x1_0000_0000) as u32;
    let lo = (x % 0x1_0000_0000) as u32;
    match e {
        Endian::Big => {
            push_u32(out, hi, e);
            push_u32(out, lo, e);
        },
        Endian::Little => {
            push_u32(out, lo, e);
            push_u32(out, hi, e);
        },
    }
    assert(final(out)@ =~= old(out)@ + spec_u64_bytes(x, e));
}

/// Appends bytes.
pub(crate) fn push_bytes(out: &mut Vec<u8>, b: &[u8])
    ensures
        final(out)@ == old(out)@ + b@,
{
    let mut i: usize = 0;
    while i < b.len()
        invariant
            i <= b@.len(),
            out@ == old(out)@ + b@.subrange(0, i as int),
        decreases b@.len() - i,
    {
        out.push(b[i]);
        i = i + 1;
        assert(out@ =~= old(out)@ + b@.subrange(0, i as int));
    }
    assert(b@.subrange(0, b@.len() as int) =~= b@);
}

/// The tag byte of a node's type.
fn node_tag(n: &Byml) -> (r: u8)
    ensures
        r == spec_node_tag(type_of(n.node())),
{
    match n {
        Byml::String(_) => 0xA0,
        Byml::BinaryData(_) => 0xA1,
        Byml::Array(_) => 0xC0,
        Byml::Hash(_) => 0xC1,
        Byml::Bool(_) => 0xD0,
        Byml::I32(_) => 0xD1,
        Byml::Float(_) => 0xD2,
        Byml::U32(_) => 0xD3,
        Byml::I64(_) => 0xD4,
        Byml::U64(_) => 0xD5,
        Byml::Double(_) => 0xD6,
        Byml::Null => 0xFF,
    }
}

/// Where a string stands in a table that holds it.
fn table_index(t: &Vec<String>, s: &String) -> (r: u32)
    requires
        strictly_sorted(views(t@)),
        views(t@).contains(s@),
        t@.len() < 0x100_0000,
    ensures
        r == index_in(views(t@), s@),
        r < t@.len(),
{
    let ghost v = views(t@);
    let mut i: usize = 0;
    while i < t.len()
        invariant
            v == views(t@),
            strictly_sorted(v),
            v.contains(s@),
            i <= t@.len(),
            t@.len() < 0x100_0000,
            forall|k: int| 0 <= k < i ==> #[trigger] v[k] != s@,
        decreases t@.len() - i,
    {
        if t[i] == *s {
            proof {
                assert(v[i as int] == s@);
                let j = index_in(v, s@);
                assert(0 <= j < v.len() && v[j] == s@);
                if j > i {
                    assert(str_lt(v[i as int], v[j]));
                    lemma_bytes_lt_irrefl(encode_utf8(s@));
                }
            }
            return i as u32;
        }
        i = i + 1;
    }
    proof {
        let k = choose|k: int| 0 <= k < v.len() && v[k] == s@;
        assert(v[k] != s@);
    }
    0
}

/// What a node's slot holds, where its out-of-line data would start at
/// `at`.
fn slot_of(n: &Byml, at: u64, tb: &Tables, Ghost(w): Ghost<WCtx>) -> (r: u32)
    requires
        tables_match(tb, w),
        at <= u32::MAX,
        forall|x: Seq<char>| has_string(n.node(), x) ==> w.strings.contains(x),
    ensures
        r == slot_value(n.node(), at as int, w),
{
    match n {
        Byml::String(s) => {
            assert(has_string(n.node(), s@));
            table_index(&tb.strings, s)
        },
        Byml::Bool(b) => if *b {
            1
        } else {
            0
        },
        Byml::I32(x) => *x as u32,
        Byml::U32(x) => *x,
        Byml::Float(x) => *x,
        Byml::Null => 0,
        _ => at as u32,
    }
}

/// Appends a node written out of line, with the values that it holds.
fn write_node(n: &Byml, tb: &Tables, out: &mut Vec<u8>, Ghost(w): Ghost<WCtx>)
    requires
        old(out)@.len() + node_size(n.node()) <= u32::MAX,
        counts_fit(n.node()),
        tables_match(tb, w),
        forall|x: Seq<char>| has_string(n.node(), x) ==> w.strings.contains(x),
        forall|x: Seq<char>| has_key(n.node(), x) ==> w.keys.contains(x),
    ensures
        final(out)@ == old(out)@ + enc(n.node(), old(out)@.len() as int, w),
    decreases n, 1nat,
{
    let ghost start = out@;
    match n {
        Byml::Array(_) => write_array(n, tb, out, Ghost(w)),
        Byml::Hash(_) => write_hash(n, tb, out, Ghost(w)),
        Byml::BinaryData(b) => {
            push_u32(out, b.len() as u32, tb.e);
            push_bytes(out, b.as_slice());
            assert(out@ =~= start + enc(n.node(), start.len() as int, w));
        },
        Byml::I64(x) => {
            push_u64(out, *x as u64, tb.e);
        },
        Byml::U64(x) => {
            push_u64(out, *x, tb.e);
        },
        Byml::Double(x) => {
            push_u64(out, *x, tb.e);
        },
        _ => {
            assert(out@ =~= start + enc(n.node(), start.len() as int, w));
        },
    }
}

/// Appends an array node with the values that it holds.
#[verifier::rlimit(40)]
fn write_array(n: &Byml, tb: &Tables, out: &mut Vec<u8>, Ghost(w): Ghost<WCtx>)
    requires
        n is Array,
        old(out)@.len() + node_size(n.node()) <= u32::MAX,
        counts_fit(n.node()),
        tables_match(tb, w),
        forall|x: Seq<char>| has_string(n.node(), x) ==> w.strings.contains(x),
        forall|x: Seq<char>| has_key(n.node(), x) ==> w.keys.contains(x),
    ensures
        final(out)@ == old(out)@ + enc(n.node(), old(out)@.len() as int, w),
    decreases n, 0nat,
{
    let ghost start = out@;
    let base = out.len() as u64;
    match n {
        Byml::Array(items) => {
            let ghost nodes = n.node()->Array_0;
            assert(n.node() == ByNode::Array(nodes));
            assert(forall|k: int| 0 <= k < items@.len() ==> nodes[k] == (#[trigger] items@[k]).node());
            let len = items.len();
            out.push(0xC0);
            push_u24(out, len as u32, tb.e);
            let ghost p1 = out@;
            let mut i: usize = 0;
            while i < len
                invariant
                    len == items@.len(),
                    nodes.len() == len,
                    forall|k: int| 0 <= k < items@.len() ==> nodes[k] == (#[trigger] items@[k]).node(),
                    i <= len,
                    out@ == p1 + Seq::new(i as nat, |k: int| spec_node_tag(type_of(nodes[k]))),
                decreases len - i,
            {
                let tag = node_tag(&items[i]);
                out.push(tag);
                i = i + 1;
                assert(out@ =~= p1 + Seq::new(i as nat, |k: int| spec_node_tag(type_of(nodes[k]))));
            }
            assert(Seq::new(len as nat, |k: int| spec_node_tag(type_of(nodes[k]))) =~= type_bytes(nodes));
            let pad = (4 - len % 4) % 4;
            let ghost p2 = out@;
            let mut z: usize = 0;
            while z < pad
                invariant
                    z <= pad,
                    out@ == p2 + zeros(z as int),
                decreases pad - z,
            {
                out.push(0);
                z = z + 1;
                assert(out@ =~= p2 + zeros(z as int));
            }
            let ghost p3 = out@;
            let ghost cbi = base + head_len(n.node());
            let cb: u64 = base + 4 + len as u64 + pad as u64 + 4 * len as u64;
            assert(cb == cbi);
            proof {
                lemma_items_size_mono(nodes, 0, len as int);
            }
            let mut at: u64 = cb;
            let mut i: usize = 0;
            assert(item_slots(nodes, 0, cbi, w) =~= Seq::<u8>::empty());
            while i < len
                invariant
                    *n == Byml::Array(*items),
                    n.node() == ByNode::Array(nodes),
                    len == items@.len(),
                    nodes.len() == len,
                    forall|k: int| 0 <= k < items@.len() ==> nodes[k] == (#[trigger] items@[k]).node(),
                    i <= len,
                    tables_match(tb, w),
                    forall|x: Seq<char>| has_string(n.node(), x) ==> w.strings.contains(x),
                    at == cbi + items_size(nodes, i as int),
                    cbi + items_size(nodes, len as int) <= u32::MAX,
                    out@ == p3 + item_slots(nodes, i as int, cbi, w),
                decreases len - i,
            {
                proof {
                    lemma_items_size_mono(nodes, i + 1, len as int);
                    assert(nodes[i as int] == items@[i as int].node());
                    assert forall|x: Seq<char>| has_string(items@[i as int].node(), x) implies w.strings.contains(x) by {
                        lemma_child_strings(nodes, i as int, x);
                    }
                }
                let v = slot_of(&items[i], at, tb, Ghost(w));
                push_u32(out, v, tb.e);
                let sz = size_of(&items[i]);
                at = at + sz;
                i = i + 1;
            }
            let ghost p4 = out@;
            let mut i: usize = 0;
            assert(item_data(nodes, 0, cbi, w) =~= Seq::<u8>::empty());
            proof {
                lemma_item_slots_len(nodes, len as int, cbi, w);
            }
            while i < len
                invariant
                    *n == Byml::Array(*items),
                    n.node() == ByNode::Array(nodes),
                    len == items@.len(),
                    nodes.len() == len,
                    forall|k: int| 0 <= k < items@.len() ==> nodes[k] == (#[trigger] items@[k]).node(),
                    i <= len,
                    tables_match(tb, w),
                    counts_fit(n.node()),
                    forall|x: Seq<char>| has_string(n.node(), x) ==> w.strings.contains(x),
                    forall|x: Seq<char>| has_key(n.node(), x) ==> w.keys.contains(x),
                    out@.len() == cbi + items_size(nodes, i as int),
                    cbi + items_size(nodes, len as int) <= u32::MAX,
                    out@ == p4 + item_data(nodes, i as int, cbi, w),
                decreases len - i,
            {
                proof {
                    lemma_items_size_mono(nodes, i + 1, len as int);
                    assert(nodes[i as int] == items@[i as int].node());
                    assert(counts_fit(nodes[i as int]));
                    assert forall|x: Seq<char>| has_string(items@[i as int].node(), x) implies w.strings.contains(x) by {
                        lemma_child_strings(nodes, i as int, x);
                    }
                    assert forall|x: Seq<char>| has_key(items@[i as int].node(), x) implies w.keys.contains(x) by {
                        lemma_child_strings(nodes, i as int, x);
                    }
                    assert(decreases_to!(*n => n->Array_0));
                    assert(decreases_to!(*items => items@));
                    assert(decreases_to!(items@ => items@[i as int]));
                    lemma_enc_len(nodes[i as int], cbi + items_size(nodes, i as int), w);
                }
                write_node(&items[i], tb, out, Ghost(w));
                i = i + 1;
                proof {
                    assert(out@ =~= p4 + item_data(nodes, i as int, cbi, w));
                }
            }
            proof {
                assert(out@ =~= start + enc(n.node(), start.len() as int, w));
            }
        },
        _ => {},
    }
}

/// Appends a hash node with the values that it holds.
#[verifier::rlimit(40)]
fn write_hash(n: &Byml, tb: &Tables, out: &mut Vec<u8>, Ghost(w): Ghost<WCtx>)
    requires
        n is Hash,
        old(out)@.len() + node_size(n.node()) <= u32::MAX,
        counts_fit(n.node()),
        tables_match(tb, w),
        forall|x: Seq<char>| has_string(n.node(), x) ==> w.strings.contains(x),
        forall|x: Seq<char>| has_key(n.node(), x) ==> w.keys.contains(x),
    ensures
        final(out)@ == old(out)@ + enc(n.node(), old(out)@.len() as int, w),
    decreases n, 0nat,
{
    let ghost start = out@;
    let base = out.len() as u64;
    match n {
        Byml::Hash(es) => {
            let ghost ens = n.node()->Hash_0;
            assert(n.node() == ByNode::Hash(ens));
            let len = es.len();
            out.push(0xC1);
            push_u24(out, len as u32, tb.e);
            let ghost p1 = out@;
            let ghost cbi = base + head_len(n.node());
            let cb: u64 = base + 4 + 8 * len as u64;
            assert(cb == cbi);
            proof {
                lemma_entries_size_mono(ens, 0, len as int);
            }
            let mut at: u64 = cb;
            let mut i: usize = 0;
            assert(entry_heads(ens, 0, cbi, w) =~= Seq::<u8>::empty());
            while i < len
                invariant
                    *n == Byml::Hash(*es),
                    n.node() == ByNode::Hash(ens),
                    len == es@.len(),
                    ens.len() == len,
                    forall|k: int|
                        0 <= k < es@.len() ==> ens[k] == ((#[trigger] es@[k]).0@, es@[k].1.node()),
                    i <= len,
                    tables_match(tb, w),
                    forall|x: Seq<char>| has_string(n.node(), x) ==> w.strings.contains(x),
                    forall|x: Seq<char>| has_key(n.node(), x) ==> w.keys.contains(x),
                    at == cbi + entries_size(ens, i as int),
                    cbi + entries_size(ens, len as int) <= u32::MAX,
                    out@ == p1 + entry_heads(ens, i as int, cbi, w),
                decreases len - i,
            {
                proof {
                    lemma_entries_size_mono(ens, i + 1, len as int);
                    assert(ens[i as int] == (es@[i as int].0@, es@[i as int].1.node()));
                    lemma_entry_strings(ens, i as int, es@[i as int].0@);
                    assert forall|x: Seq<char>| has_string(es@[i as int].1.node(), x) implies w.strings.contains(x) by {
                        lemma_entry_strings(ens, i as int, x);
                    }
                }
                let ki = table_index(&tb.keys, &es[i].0);
                push_u24(out, ki, tb.e);
                let tag = node_tag(&es[i].1);
                out.push(tag);
                let v = slot_of(&es[i].1, at, tb, Ghost(w));
                push_u32(out, v, tb.e);
                let sz = size_of(&es[i].1);
                at = at + sz;
                i = i + 1;
                proof {
                    assert(out@ =~= p1 + entry_heads(ens, i as int, cbi, w));
                }
            }
            let ghost p4 = out@;
            let mut i: usize = 0;
            assert(entry_data(ens, 0, cbi, w) =~= Seq::<u8>::empty());
            proof {
                lemma_entry_heads_len(ens, len as int, cbi, w);
            }
            while i < len
                invariant
                    *n == Byml::Hash(*es),
                    n.node() == ByNode::Hash(ens),
                    len == es@.len(),
                    ens.len() == len,
                    forall|k: int|
                        0 <= k < es@.len() ==> ens[k] == ((#[trigger] es@[k]).0@, es@[k].1.node()),
                    i <= len,
                    tables_match(tb, w),
                    counts_fit(n.node()),
                    forall|x: Seq<char>| has_string(n.node(), x) ==> w.strings.contains(x),
                    forall|x: Seq<char>| has_key(n.node(), x) ==> w.keys.contains(x),
                    out@.len() == cbi + entries_size(ens, i as int),
                    cbi + entries_size(ens, len as int) <= u32::MAX,
                    out@ == p4 + entry_data(ens, i as int, cbi, w),
                decreases len - i,
            {
                proof {
                    lemma_entries_size_mono(ens, i + 1, len as int);
                    assert(ens[i as int] == (es@[i as int].0@, es@[i as int].1.node()));
                    assert(counts_fit(ens[i as int].1));
                    assert forall|x: Seq<char>| has_string(es@[i as int].1.node(), x) implies w.strings.contains(x) by {
                        lemma_entry_strings(ens, i as int, x);
                    }
                    assert forall|x: Seq<char>| has_key(es@[i as int].1.node(), x) implies w.keys.contains(x) by {
                        lemma_entry_strings(ens, i as int, x);
                    }
                    assert(decreases_to!(*n => n->Hash_0));
                    assert(decreases_to!(*es => es@));
                    assert(decreases_to!(es@ => es@[i as int]));
                    assert(decreases_to!(es@[i as int] => es@[i as int].1));
                    lemma_enc_len(ens[i as int].1, cbi + entries_size(ens, i as int), w);
                }
                write_node(&es[i].1, tb, out, Ghost(w));
                i = i + 1;
                proof {
                    assert(out@ =~= p4 + entry_data(ens, i as int, cbi, w));
                }
            }
            proof {
                assert(out@ =~= start + enc(n.node(), start.len() as int, w));
            }
        },
        _ => {},
    }
}

pub(crate) proof fn lemma_table_offsets_len(t: Seq<Seq<char>>, k: int, e: Endian)
    requires
        0 <= k <= t.len() + 1,
    ensures
        table_offsets(t, k, e).len() == 4 * k,
    decreases k,
{
    if k > 0 {
        lemma_table_offsets_len(t, k - 1, e);
    }
}

pub(crate) proof fn lemma_table_strs_len(t: Seq<Seq<char>>, k: int)
    requires
        0 <= k <= t.len(),
    ensures
        table_strs(t, k).len() == strs_len(t, k),
    decreases k,
{
    if k > 0 {
        lemma_table_strs_len(t, k - 1);
    }
}

pub(crate) proof fn lemma_strs_len_mono(t: Seq<Seq<char>>, i: int, j: int)
    requires
        0 <= i <= j <= t.len(),
    ensures
        strs_len(t, i) <= strs_len(t, j),
    decreases j - i,
{
    if i < j {
        lemma_strs_len_mono(t, i, j - 1);
    }
}

pub(crate) proof fn lemma_table_len(t: Seq<Seq<char>>, e: Endian)
    ensures
        table_bytes(t, e).len() == table_size(t),
{
    lemma_table_offsets_len(t, t.len() + 1 as int, e);
    lemma_table_strs_len(t, t.len() as int);
}

/// Appends a string table node.
fn write_table(t: &Vec<String>, e: Endian, out: &mut Vec<u8>)
    requires
        old(out)@.len() + table_size(views(t@)) <= u32::MAX,
        t@.len() < 0x100_0000,
    ensures
        final(out)@ == old(out)@ + table_bytes(views(t@), e),
{
    let ghost v = views(t@);
    let ghost start = out@;
    let n = t.len();
    out.push(0xC2);
    push_u24(out, n as u32, e);
    let ghost p1 = out@;
    let first: u64 = 4 + 4 * (n as u64 + 1);
    proof {
        lemma_strs_len_mono(v, 0, n as int);
    }
    let mut acc: u64 = 0;
    let mut i: usize = 0;
    assert(table_offsets(v, 0, e) =~= Seq::<u8>::empty());
    while i <= n
        invariant
            v == views(t@),
            n == t@.len(),
            i <= n + 1,
            first == 4 + 4 * (n + 1),
            acc == strs_len(v, if i <= n {
                i as int
            } else {
                n as int
            }),
            start.len() + table_size(v) <= u32::MAX,
            out@ == p1 + table_offsets(v, i as int, e),
        decreases n + 1 - i,
    {
        proof {
            lemma_strs_len_mono(v, i as int, n as int);
        }
        push_u32(out, (first + acc) as u32, e);
        if i < n {
            let l = t[i].as_str().len() as u64;
            assert(v[i as int] == t@[i as int]@);
            proof {
                lemma_strs_len_mono(v, i + 1, n as int);
            }
            acc = acc + l + 1;
        }
        i = i + 1;
        proof {
            assert(out@ =~= p1 + table_offsets(v, i as int, e));
        }
    }
    let ghost p2 = out@;
    let mut i: usize = 0;
    assert(table_strs(v, 0) =~= Seq::<u8>::empty());
    while i < n
        invariant
            v == views(t@),
            n == t@.len(),
            i <= n,
            out@ == p2 + table_strs(v, i as int),
            acc == strs_len(v, n as int),
            first == 4 + 4 * (n + 1),
            start.len() + table_size(v) <= u32::MAX,
        decreases n - i,
    {
        push_bytes(out, t[i].as_str().as_bytes());
        out.push(0);
        assert(v[i as int] == t@[i as int]@);
        i = i + 1;
        proof {
            assert(out@ =~= p2 + table_strs(v, i as int));
        }
    }
    let unpadded = first + acc;
    let pad = (4 - unpadded % 4) % 4;
    let ghost p3 = out@;
    let mut z: u64 = 0;
    while z < pad
        invariant
            z <= pad,
            out@ == p3 + zeros(z as int),
        decreases pad - z,
    {
        out.push(0);
        z = z + 1;
        assert(out@ =~= p3 + zeros(z as int));
    }
    assert(out@ =~= start + table_bytes(v, e));
}

/// A document that can be written: its root is null, or an array or a hash
/// whose containers each hold fewer than 2^24 values, whose tables hold
/// fewer than 2^24 strings each, and which fits in 4 GiB.
pub open spec fn spec_writable(n: ByNode) -> bool {
    ||| n is Null
    ||| {
        &&& (n is Array || n is Hash)
        &&& counts_fit(n)
        &&& forall|w: WCtx|
            #[trigger] tables_of(n, w) ==> w.keys.len() < 0x100_0000 && w.strings.len() < 0x100_0000
                && doc_bytes(n, w, 2).len() <= u32::MAX
    }
}

/// The bytes of a document written with the given byte order and version.
pub open spec fn spec_written(n: ByNode, e: Endian, version: u16, r: Seq<u8>) -> bool {
    exists|w: WCtx| #[trigger] tables_of(n, w) && w.e == e && r == doc_bytes(n, w, version)
}

pub(crate) proof fn lemma_doc_len(n: ByNode, w: WCtx, version: u16)
    requires
        !(n is Null),
    ensures
        doc_bytes(n, w, version).len() == root_offset(w) + node_size(n),
{
    lemma_table_len(w.keys, w.e);
    lemma_table_len(w.strings, w.e);
    lemma_enc_len(n, root_offset(w), w);
}

fn push_header(out: &mut Vec<u8>, e: Endian, version: u16, keys: u32, strings: u32, root: u32)
    ensures
        final(out)@ == old(out)@ + header_bytes(e, version, keys, strings, root),
{
    match e {
        Endian::Big => {
            out.push(0x42);
            out.push(0x59);
        },
        Endian::Little => {
            out.push(0x59);
            out.push(0x42);
        },
    }
    push_u16(out, version, e);
    push_u32(out, keys, e);
    push_u32(out, strings, e);
    push_u32(out, root, e);
    assert(final(out)@ =~= old(out)@ + header_bytes(e, version, keys, strings, root));
}

/// The context that a set of tables gives.
spec fn ctx_of(tb: &Tables) -> WCtx {
    WCtx { e: tb.e, keys: views(tb.keys@), strings: views(tb.strings@) }
}

/// The tables of a document.
fn make_tables(b: &Byml, e: Endian) -> (tb: Tables)
    ensures
        tb.e == e,
        tables_of(b.node(), ctx_of(&tb)),
{
    let mut strings: Vec<String> = Vec::new();
    let mut keys: Vec<String> = Vec::new();
    assert(views(strings@) =~= Seq::<Seq<char>>::empty());
    assert(views(keys@) =~= Seq::<Seq<char>>::empty());
    collect(b, &mut strings, &mut keys);
    Tables { e, keys, strings }
}

/// Appends the header and the tables of a document whose root is not null.
#[verifier::rlimit(30)]
fn write_front(tb: &Tables, version: u16, out: &mut Vec<u8>)
    requires
        old(out)@.len() == 0,
        tb.keys@.len() < 0x100_0000,
        tb.strings@.len() < 0x100_0000,
        root_offset(ctx_of(tb)) <= u32::MAX,
    ensures
        final(out)@ == header_bytes(
            tb.e,
            version,
            if tb.keys@.len() > 0 {
                0x10u32
            } else {
                0u32
            },
            if tb.strings@.len() > 0 {
                (0x10 + table_space(ctx_of(tb).keys)) as u32
            } else {
                0u32
            },
            root_offset(ctx_of(tb)) as u32,
        ) + (if tb.keys@.len() > 0 {
            table_bytes(ctx_of(tb).keys, tb.e)
        } else {
            Seq::empty()
        }) + (if tb.strings@.len() > 0 {
            table_bytes(ctx_of(tb).strings, tb.e)
        } else {
            Seq::empty()
        }),
{
    let ghost w = ctx_of(tb);
    proof {
        lemma_table_len(w.keys, w.e);
        lemma_table_len(w.strings, w.e);
    }
    let mut kbuf: Vec<u8> = Vec::new();
    if tb.keys.len() > 0 {
        write_table(&tb.keys, tb.e, &mut kbuf);
    }
    let mut sbuf: Vec<u8> = Vec::new();
    if tb.strings.len() > 0 {
        write_table(&tb.strings, tb.e, &mut sbuf);
    }
    assert(kbuf@ =~= (if w.keys.len() > 0 {
        table_bytes(w.keys, w.e)
    } else {
        Seq::empty()
    }));
    assert(sbuf@ =~= (if w.strings.len() > 0 {
        table_bytes(w.strings, w.e)
    } else {
        Seq::empty()
    }));
    let koff: u32 = if tb.keys.len() > 0 {
        0x10
    } else {
        0
    };
    let soff: u32 = if tb.strings.len() > 0 {
        (0x10 + kbuf.len()) as u32
    } else {
        0
    };
    let root: u32 = (0x10 + kbuf.len() + sbuf.len()) as u32;
    push_header(out, tb.e, version, koff, soff, root);
    push_bytes(out, kbuf.as_slice());
    push_bytes(out, sbuf.as_slice());
}

#[verifier::rlimit(30)]
fn write_document(b: &Byml, e: Endian, version: u16) -> (r: Vec<u8>)
    requires
        spec_writable(b.node()),
    ensures
        spec_written(b.node(), e, version, r@),
{
    let mut out: Vec<u8> = Vec::new();
    if let Byml::Null = b {
        push_header(&mut out, e, version, 0, 0, 0);
        proof {
            let w = WCtx { e, keys: Seq::empty(), strings: Seq::empty() };
            assert(tables_of(b.node(), w));
            assert(out@ =~= doc_bytes(b.node(), w, version));
        }
        return out;
    }
    let tb = make_tables(b, e);
    let ghost w = ctx_of(&tb);
    proof {
        assert(tables_of(b.node(), w));
        lemma_doc_len(b.node(), w, 2);
    }
    write_front(&tb, version, &mut out);
    assert(tables_match(&tb, w));
    assert(forall|x: Seq<char>| has_string(b.node(), x) ==> w.strings.contains(x));
    assert(forall|x: Seq<char>| has_key(b.node(), x) ==> w.keys.contains(x));
    proof {
        lemma_table_len(w.keys, w.e);
        lemma_table_len(w.strings, w.e);
    }
    write_node(b, &tb, &mut out, Ghost(w));
    assert(out@ =~= doc_bytes(b.node(), w, version));
    out
}

impl Byml {
    /// Writes the document as BYML version 2 with the given byte order.
    pub fn to_binary(&self, endian: Endian) -> (r: Vec<u8>)
        requires
            spec_writable(self.node()),
        ensures
            spec_written(self.node(), endian, 2, r@),
    {
        write_document(self, endian, 2)
    }

    /// Writes the document as BYML of the given version (2 to 4) with the
    /// given byte order.
    pub fn write(&self, endian: Endian, version: u16) -> (r: Result<Vec<u8>>)
        requires
            spec_writable(self.node()),
        ensures
            r is Ok <==> 2 <= version <= 7,
            r matches Ok(v) ==> spec_written(self.node(), endian, version, v@),
            r matches Err(e) ==> e == Error::InvalidData("Invalid BYML version"),
    {
        if version < 2 || version > 7 {
            return Err(Error::InvalidData("Invalid BYML version"));
        }
        Ok(write_document(self, endian, version))
    }
}

} // verus!
