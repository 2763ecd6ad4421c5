//! Writing parameter archives.
//!
//! The layout: the 0x30-byte header, the data type string, the list
//! records (the root, then for each list the records of its children in
//! one block, the blocks in the order the lists are reached), the object
//! records (each list's objects in one block, lists in preorder), the
//! parameter records (child lists' parameters before the list's own), the
//! data section and the string section. Equal data and equal strings are
//! stored once.
use vstd::prelude::*;
use crate::Endian;
use crate::byml::writer::push_bytes;
use crate::util::{bytes_eq, push_u16, push_u32, spec_u16_bytes, spec_u32_bytes};
use super::param::{curves_words, Curve, list_view, object_view, param_view, ListV, PVal, Parameter, ParameterIO, ParameterList, ParameterObject};

verus! {

/// The parameters of an object, by name hash.
pub type ObjV = Seq<(u32, (u8, PVal))>;

/// The number of lists in the subtree of `l`, `l` included.
pub open spec fn nl(l: ListV) -> nat
    decreases l, 1nat, 0int,
{
    1 + nl_sum(l, l.lists.len() as int)
}

/// The number of lists in the subtrees of the first `i` children of `l`.
pub open spec fn nl_sum(l: ListV, i: int) -> nat
    decreases l, 0nat, i,
{
    if i <= 0 || i > l.lists.len() {
        0
    } else {
        nl_sum(l, i - 1) + nl(l.lists[i - 1].1)
    }
}

/// The number of objects in the subtree of `l`.
pub open spec fn no(l: ListV) -> nat
    decreases l, 1nat, 0int,
{
    l.objects.len() + no_sum(l, l.lists.len() as int)
}

/// The number of objects in the subtrees of the first `i` children of `l`.
pub open spec fn no_sum(l: ListV, i: int) -> nat
    decreases l, 0nat, i,
{
    if i <= 0 || i > l.lists.len() {
        0
    } else {
        no_sum(l, i - 1) + no(l.lists[i - 1].1)
    }
}

/// The number of parameters in the first `m` objects of `l`.
pub open spec fn op_sum(l: ListV, m: int) -> nat
    decreases m,
{
    if m <= 0 || m > l.objects.len() {
        0
    } else {
        op_sum(l, m - 1) + l.objects[m - 1].1.len()
    }
}

/// The number of parameters in the subtree of `l`.
pub open spec fn np(l: ListV) -> nat
    decreases l, 1nat, 0int,
{
    np_sum(l, l.lists.len() as int) + op_sum(l, l.objects.len() as int)
}

/// The number of parameters in the subtrees of the first `i` children of
/// `l`.
pub open spec fn np_sum(l: ListV, i: int) -> nat
    decreases l, 0nat, i,
{
    if i <= 0 || i > l.lists.len() {
        0
    } else {
        np_sum(l, i - 1) + np(l.lists[i - 1].1)
    }
}

/// A 16-bit field holding `x` truncated to 16 bits.
pub open spec fn u16f(x: int) -> Seq<u8> {
    spec_u16_bytes((x % 0x10000) as u16, Endian::Little)
}

/// A 32-bit field.
pub open spec fn u32f(x: u32) -> Seq<u8> {
    spec_u32_bytes(x, Endian::Little)
}

/// The record of list `l`, named `name`, at index `g` among the list
/// records; its children's records start at index `s`, its objects at
/// object index `o`; `nlt` is the number of list records.
pub open spec fn list_rec(name: u32, l: ListV, g: int, s: int, o: int, nlt: int) -> Seq<u8> {
    u32f(name) + u16f(3 * (s - g)) + u16f(l.lists.len() as int) + u16f(3 * (nlt - g) + 2 * o)
        + u16f(l.objects.len() as int)
}

/// The index at which the records of the children of child `i` of `l`
/// start, where those of `l`'s children start at `s`.
pub open spec fn child_start(l: ListV, s: int, i: int) -> int {
    s + l.lists.len() + nl_sum(l, i) - i
}

/// The first object index of child `i` of `l`, where `l`'s own objects
/// start at `o`.
pub open spec fn child_objs(l: ListV, o: int, i: int) -> int {
    o + l.objects.len() + no_sum(l, i)
}

/// The records of the children of `l` from child `i` on.
pub open spec fn child_recs(l: ListV, s: int, o: int, i: int, nlt: int) -> Seq<u8>
    decreases l.lists.len() - i,
{
    if i < 0 || i >= l.lists.len() {
        Seq::empty()
    } else {
        list_rec(
            l.lists[i].0,
            l.lists[i].1,
            s + i,
            child_start(l, s, i),
            child_objs(l, o, i),
            nlt,
        ) + child_recs(l, s, o, i + 1, nlt)
    }
}

/// The records of all lists below `l`, where the records of `l`'s children
/// start at `s` and `l`'s objects at `o`.
pub open spec fn desc_recs(l: ListV, s: int, o: int, nlt: int) -> Seq<u8>
    decreases l, 1nat, 0int,
{
    child_recs(l, s, o, 0, nlt) + desc_from(l, s, o, 0, nlt)
}

/// The records of the lists below the children of `l` from child `i` on.
pub open spec fn desc_from(l: ListV, s: int, o: int, i: int, nlt: int) -> Seq<u8>
    decreases l, 0nat, l.lists.len() - i,
{
    if i < 0 || i >= l.lists.len() {
        Seq::empty()
    } else {
        desc_recs(l.lists[i].1, child_start(l, s, i), child_objs(l, o, i), nlt) + desc_from(
            l,
            s,
            o,
            i + 1,
            nlt,
        )
    }
}

/// The list records of an archive whose root list is `root`.
pub open spec fn lists_region(root: ListV) -> Seq<u8> {
    list_rec(super::binary::ROOT_KEY_HASH, root, 0, 1, 0, nl(root) as int) + desc_recs(
        root,
        1,
        0,
        nl(root) as int,
    )
}

/// The record of an object with `count` parameters at object index `o`,
/// whose parameters start at parameter index `p`; `not` is the number of
/// object records.
pub open spec fn obj_rec(name: u32, count: int, o: int, p: int, not: int) -> Seq<u8> {
    u32f(name) + u16f(2 * (not - o + p)) + u16f(count)
}

/// The parameter index of the first parameter of `l`'s own objects, where
/// the parameters of its subtree start at `p`.
pub open spec fn own_params(l: ListV, p: int) -> int {
    p + np_sum(l, l.lists.len() as int)
}

/// The records of the objects of `l` from object `m` on.
pub open spec fn obj_recs(l: ListV, o: int, p: int, m: int, not: int) -> Seq<u8>
    decreases l.objects.len() - m,
{
    if m < 0 || m >= l.objects.len() {
        Seq::empty()
    } else {
        obj_rec(
            l.objects[m].0,
            l.objects[m].1.len() as int,
            o + m,
            own_params(l, p) + op_sum(l, m),
            not,
        ) + obj_recs(l, o, p, m + 1, not)
    }
}

/// The object records of the subtree of `l`: `l`'s own, then its
/// children's subtrees in order.
pub open spec fn objs_region(l: ListV, o: int, p: int, not: int) -> Seq<u8>
    decreases l, 1nat, 0int,
{
    obj_recs(l, o, p, 0, not) + objs_from(l, o, p, 0, not)
}

/// The object records of the subtrees of the children of `l` from child
/// `i` on.
pub open spec fn objs_from(l: ListV, o: int, p: int, i: int, not: int) -> Seq<u8>
    decreases l, 0nat, l.lists.len() - i,
{
    if i < 0 || i >= l.lists.len() {
        Seq::empty()
    } else {
        objs_region(l.lists[i].1, child_objs(l, o, i), p + np_sum(l, i), not) + objs_from(
            l,
            o,
            p,
            i + 1,
            not,
        )
    }
}

/// A parameter record before its data offset is known.
pub open spec fn param_rec(name: u32, t: u8) -> Seq<u8> {
    u32f(name) + seq![0u8, 0u8, 0u8, t]
}

/// The records of the parameters of an object from parameter `q` on.
pub open spec fn obj_param_recs(obj: ObjV, q: int) -> Seq<u8>
    decreases obj.len() - q,
{
    if q < 0 || q >= obj.len() {
        Seq::empty()
    } else {
        param_rec(obj[q].0, obj[q].1.0) + obj_param_recs(obj, q + 1)
    }
}

/// The parameter records of `l`'s own objects from object `m` on.
pub open spec fn own_param_recs(l: ListV, m: int) -> Seq<u8>
    decreases l.objects.len() - m,
{
    if m < 0 || m >= l.objects.len() {
        Seq::empty()
    } else {
        obj_param_recs(l.objects[m].1, 0) + own_param_recs(l, m + 1)
    }
}

/// The parameter records of the subtree of `l`: its children's subtrees
/// first, then its own objects'.
pub open spec fn params_region(l: ListV) -> Seq<u8>
    decreases l, 1nat, 0int,
{
    params_from(l, 0) + own_param_recs(l, 0)
}

/// The parameter records of the subtrees of the children of `l` from child
/// `i` on.
pub open spec fn params_from(l: ListV, i: int) -> Seq<u8>
    decreases l, 0nat, l.lists.len() - i,
{
    if i < 0 || i >= l.lists.len() {
        Seq::empty()
    } else {
        params_region(l.lists[i].1) + params_from(l, i + 1)
    }
}

/// A parameter waiting for its data: its record index and its type and
/// value.
pub type Item = (int, (u8, PVal));

/// Two queues: parameters with data, and string parameters.
pub type Queues = (Seq<Item>, Seq<Item>);

/// Whether a type is one of the string types.
pub open spec fn is_str_type(t: u8) -> bool {
    t == 7 || t == 8 || t == 15 || t == 20
}

/// Whether a type is one of the buffer types.
pub open spec fn is_buf_type(t: u8) -> bool {
    t == 13 || t == 14 || t == 18 || t == 19
}

/// Both queues, one after the other.
pub open spec fn cat2(a: Queues, b: Queues) -> Queues {
    (a.0 + b.0, a.1 + b.1)
}

/// The parameters of an object from parameter `q` on, whose records start
/// at `base`, each in its queue.
pub open spec fn obj_items(obj: ObjV, base: int, q: int) -> Queues
    decreases obj.len() - q,
{
    if q < 0 || q >= obj.len() {
        (Seq::empty(), Seq::empty())
    } else {
        let it: Item = (base + q, obj[q].1);
        let rest = obj_items(obj, base, q + 1);
        if is_str_type(obj[q].1.0) {
            (rest.0, seq![it] + rest.1)
        } else {
            (seq![it] + rest.0, rest.1)
        }
    }
}

/// The parameters of `l`'s own objects `m1` up to `m2`.
pub open spec fn objs_items(l: ListV, p: int, m1: int, m2: int) -> Queues
    decreases m2 - m1,
{
    if m1 < 0 || m1 >= m2 || m1 >= l.objects.len() {
        (Seq::empty(), Seq::empty())
    } else {
        cat2(
            obj_items(l.objects[m1].1, own_params(l, p) + op_sum(l, m1), 0),
            objs_items(l, p, m1 + 1, m2),
        )
    }
}

/// The name hash of `DemoAIActionIdx`.
pub open spec fn ai_action_hash() -> u32 {
    super::spec_hash_name(vstd::utf8::encode_utf8("DemoAIActionIdx"@))
}

/// Whether the first object of `l` is `DemoAIActionIdx`, as in the AI
/// programs of Breath of the Wild, whose objects come after all child
/// lists.
pub open spec fn ai_prog(l: ListV) -> bool {
    l.objects.len() > 0 && l.objects[0].0 == ai_action_hash()
}

/// The number of objects of the top list that are queued before its child
/// lists.
pub open spec fn first_objs(l: ListV, top: bool) -> int {
    if top && !ai_prog(l) {
        if l.objects.len() < 7 {
            l.objects.len() as int
        } else {
            7
        }
    } else {
        0
    }
}

/// The order in which the parameters of the subtree of `l` get their data:
/// with `top`, up to seven objects first; then before every other child
/// list one more object; then each child's subtree; then the remaining
/// objects. The AI programs of Breath of the Wild queue their objects after
/// all child lists.
pub open spec fn collect(l: ListV, top: bool, p: int) -> Queues
    decreases l, 1nat, 0int,
{
    let m0 = first_objs(l, top);
    cat2(objs_items(l, p, 0, m0), collect_from(l, p, 0, m0))
}

/// The queues from child `i` on, with object `m` next.
pub open spec fn collect_from(l: ListV, p: int, i: int, m: int) -> Queues
    decreases l, 0nat, l.lists.len() - i,
{
    if i < 0 || i >= l.lists.len() {
        objs_items(l, p, m, l.objects.len() as int)
    } else {
        let m2 = if !ai_prog(l) && i % 2 == 0 && m < l.objects.len() {
            m + 1
        } else {
            m
        };
        cat2(
            cat2(objs_items(l, p, m, m2), collect(l.lists[i].1, false, p + np_sum(l, i))),
            collect_from(l, p, i + 1, m2),
        )
    }
}

/// Words, little endian.
pub open spec fn words_le(ws: Seq<u32>) -> Seq<u8>
    decreases ws.len(),
{
    if ws.len() == 0 {
        Seq::empty()
    } else {
        words_le(ws.drop_last()) + u32f(ws.last())
    }
}

/// The data of a parameter of type `t`: a boolean as a word, words, and for
/// a buffer its length first.
pub open spec fn data_entry(t: u8, v: PVal) -> Seq<u8> {
    match v {
        PVal::Bool(b) => u32f(if b { 1 } else { 0 }),
        PVal::Words(ws) => if is_buf_type(t) {
            u32f(ws.len() as u32) + words_le(ws)
        } else {
            words_le(ws)
        },
        PVal::Bytes(bs) => u32f(bs.len() as u32) + bs,
        PVal::Chars(_) => Seq::empty(),
    }
}

/// The zero bytes that pad `n` bytes to a multiple of four.
pub open spec fn pad_zeros(n: int) -> Seq<u8> {
    Seq::new(((4 - n % 4) % 4) as nat, |i: int| 0u8)
}

/// What makes two data entries the same: whether they are buffers, and
/// their bytes.
pub open spec fn data_key(it: Item) -> (bool, Seq<u8>) {
    (is_buf_type(it.1.0), data_entry(it.1.0, it.1.1))
}

/// The first of the first `n` items whose data is the same as `key`.
pub open spec fn first_data(items: Seq<Item>, n: int, key: (bool, Seq<u8>)) -> Option<int>
    decreases n,
{
    if n <= 0 || n > items.len() {
        None
    } else {
        match first_data(items, n - 1, key) {
            Some(j) => Some(j),
            None => if data_key(items[n - 1]) == key {
                Some(n - 1)
            } else {
                None
            },
        }
    }
}

/// The data section for the first `n` items, and where each item's data
/// starts in it. Data that is already there is not written again; each new
/// entry is padded to a multiple of four bytes, and the data of a buffer
/// starts after its length.
pub open spec fn data_run(items: Seq<Item>, n: int) -> (Seq<u8>, Seq<int>)
    decreases n,
{
    if n <= 0 || n > items.len() {
        (Seq::empty(), Seq::empty())
    } else {
        let prev = data_run(items, n - 1);
        match first_data(items, n - 1, data_key(items[n - 1])) {
            Some(j) => (prev.0, prev.1.push(prev.1[j])),
            None => {
                let e = data_entry(items[n - 1].1.0, items[n - 1].1.1);
                (
                    prev.0 + e + pad_zeros(e.len() as int),
                    prev.1.push(prev.0.len() + if is_buf_type(items[n - 1].1.0) {
                        4int
                    } else {
                        0int
                    }),
                )
            },
        }
    }
}

/// The bytes of a string value.
pub open spec fn str_bytes(v: PVal) -> Seq<u8> {
    match v {
        PVal::Bytes(b) => b,
        PVal::Chars(c) => vstd::utf8::encode_utf8(c),
        _ => Seq::empty(),
    }
}

/// The first of the first `n` items with the string `key`.
pub open spec fn first_str(items: Seq<Item>, n: int, key: Seq<u8>) -> Option<int>
    decreases n,
{
    if n <= 0 || n > items.len() {
        None
    } else {
        match first_str(items, n - 1, key) {
            Some(j) => Some(j),
            None => if str_bytes(items[n - 1].1.1) == key {
                Some(n - 1)
            } else {
                None
            },
        }
    }
}

/// The string section for the first `n` items, and where each item's
/// string starts in it. Each string is stored once, with a NUL, padded to
/// a multiple of four bytes.
pub open spec fn str_run(items: Seq<Item>, n: int) -> (Seq<u8>, Seq<int>)
    decreases n,
{
    if n <= 0 || n > items.len() {
        (Seq::empty(), Seq::empty())
    } else {
        let prev = str_run(items, n - 1);
        match first_str(items, n - 1, str_bytes(items[n - 1].1.1)) {
            Some(j) => (prev.0, prev.1.push(prev.1[j])),
            None => {
                let e = str_bytes(items[n - 1].1.1).push(0u8);
                (prev.0 + e + pad_zeros(e.len() as int), prev.1.push(prev.0.len() as int))
            },
        }
    }
}

/// The parameter records with the 24-bit data offset of record `r` set to
/// `v`; records that are not there are left alone.
pub open spec fn patch24(b: Seq<u8>, r: int, v: int) -> Seq<u8> {
    if 0 <= r && 8 * r + 8 <= b.len() {
        b.update(8 * r + 4, (v % 256) as u8).update(8 * r + 5, ((v / 256) % 256) as u8).update(
            8 * r + 6,
            ((v / 65536) % 256) as u8,
        )
    } else {
        b
    }
}

/// The parameter records with the data offsets of the first `n` items of
/// the data queue set. The data section starts `8 * npt` bytes after the
/// first record.
pub open spec fn data_patches(b: Seq<u8>, items: Seq<Item>, offs: Seq<int>, n: int, npt: int) -> Seq<u8>
    decreases n,
{
    if n <= 0 || n > items.len() {
        b
    } else {
        let r = items[n - 1].0;
        patch24(data_patches(b, items, offs, n - 1, npt), r, 2 * (npt - r) + offs[n - 1] / 4)
    }
}

/// The parameter records with the string offsets of the first `n` items of
/// the string queue set; the string section follows `dlen` bytes of data.
pub open spec fn str_patches(
    b: Seq<u8>,
    items: Seq<Item>,
    offs: Seq<int>,
    n: int,
    npt: int,
    dlen: int,
) -> Seq<u8>
    decreases n,
{
    if n <= 0 || n > items.len() {
        b
    } else {
        let r = items[n - 1].0;
        patch24(
            str_patches(b, items, offs, n - 1, npt, dlen),
            r,
            (8 * (npt - r) + dlen + offs[n - 1]) / 4,
        )
    }
}

/// The length of the data type string with its NUL, padded.
pub open spec fn dtype_len(dt: Seq<u8>) -> int {
    dt.len() + 1 + (4 - (dt.len() + 1) % 4) % 4
}

/// The archive header.
pub open spec fn aamp_header(
    size: int,
    version: u32,
    dtl: int,
    nlt: int,
    not: int,
    npt: int,
    dlen: int,
    slen: int,
) -> Seq<u8> {
    seq![0x41u8, 0x41u8, 0x4Du8, 0x50u8] + u32f(2) + u32f(3) + u32f(size as u32) + u32f(version)
        + u32f(dtl as u32) + u32f(nlt as u32) + u32f(not as u32) + u32f(npt as u32) + u32f(
        dlen as u32,
    ) + u32f(slen as u32) + u32f(0)
}

/// The data section of an archive.
#[verifier::opaque]
pub open spec fn data_section(root: ListV) -> Seq<u8> {
    let q = collect(root, true, 0);
    data_run(q.0, q.0.len() as int).0
}

/// The string section of an archive.
#[verifier::opaque]
pub open spec fn string_section(root: ListV) -> Seq<u8> {
    let q = collect(root, true, 0);
    str_run(q.1, q.1.len() as int).0
}

/// The parameter records of an archive, with their data offsets set.
#[verifier::opaque]
pub open spec fn patched_params(root: ListV) -> Seq<u8> {
    let npt = np(root) as int;
    let q = collect(root, true, 0);
    let d = data_run(q.0, q.0.len() as int);
    let st = str_run(q.1, q.1.len() as int);
    str_patches(
        data_patches(params_region(root), q.0, d.1, q.0.len() as int, npt),
        q.1,
        st.1,
        q.1.len() as int,
        npt,
        d.0.len() as int,
    )
}

/// What the parameter records, the data section and the string section of
/// an archive are made of.
pub(crate) proof fn lemma_sections_def(root: ListV)
    ensures
        ({
            let npt = np(root) as int;
            let q = collect(root, true, 0);
            let d = data_run(q.0, q.0.len() as int);
            let st = str_run(q.1, q.1.len() as int);
            &&& data_section(root) == d.0
            &&& string_section(root) == st.0
            &&& patched_params(root) == str_patches(
                data_patches(params_region(root), q.0, d.1, q.0.len() as int, npt),
                q.1,
                st.1,
                q.1.len() as int,
                npt,
                d.0.len() as int,
            )
        }),
{
    reveal(data_section);
    reveal(string_section);
    reveal(patched_params);
}

/// Everything after the data type string.
#[verifier::opaque]
pub open spec fn aamp_body(root: ListV) -> Seq<u8> {
    lists_region(root) + objs_region(root, 0, 0, no(root) as int) + patched_params(root)
        + data_section(root) + string_section(root)
}

/// The binary archive of a parameter IO with the given data version, data
/// type and root list.
#[verifier::opaque]
pub open spec fn aamp_bytes(version: u32, dtype: Seq<char>, root: ListV) -> Seq<u8> {
    let dt = vstd::utf8::encode_utf8(dtype);
    let dtl = dtype_len(dt);
    let body = aamp_body(root);
    aamp_header(
        0x30 + dtl + body.len(),
        version,
        dtl,
        nl(root) as int,
        no(root) as int,
        np(root) as int,
        data_section(root).len() as int,
        string_section(root).len() as int,
    ) + dt + Seq::new((dtl - dt.len()) as nat, |i: int| 0u8) + body
}

/// The view of a list in terms of its parts.
proof fn lemma_view_parts(l: ParameterList)
    ensures
        list_view(l).lists.len() == l.lists@.len(),
        list_view(l).objects.len() == l.objects@.len(),
        forall|i: int|
            0 <= i < l.lists@.len() ==> #[trigger] list_view(l).lists[i] == (
                l.lists@[i].0.spec_hash(),
                list_view(l.lists@[i].1),
            ),
        forall|m: int|
            0 <= m < l.objects@.len() ==> #[trigger] list_view(l).objects[m] == (
                l.objects@[m].0.spec_hash(),
                object_view(l.objects@[m].1),
            ),
{
}

/// Every subtree has at least its own list.
pub(crate) proof fn lemma_sums_mono(l: ListV, i: int, j: int)
    requires
        0 <= i <= j <= l.lists.len(),
    ensures
        nl_sum(l, i) + (j - i) <= nl_sum(l, j),
        no_sum(l, i) <= no_sum(l, j),
        np_sum(l, i) <= np_sum(l, j),
    decreases j - i,
{
    if i < j {
        lemma_sums_mono(l, i, j - 1);
        assert(nl(l.lists[j - 1].1) >= 1);
    }
}

/// The parameter counts of the objects grow with the number of objects.
pub(crate) proof fn lemma_op_mono(l: ListV, m1: int, m2: int)
    requires
        0 <= m1 <= m2 <= l.objects.len(),
    ensures
        op_sum(l, m1) <= op_sum(l, m2),
    decreases m2 - m1,
{
    if m1 < m2 {
        lemma_op_mono(l, m1, m2 - 1);
    }
}

/// The numbers of lists, objects and parameters in the subtree of `l`.
fn tree_counts(l: &ParameterList) -> (r: (u64, u64, u64))
    requires
        nl(list_view(*l)) + no(list_view(*l)) + np(list_view(*l)) <= u32::MAX,
    ensures
        r.0 == nl(list_view(*l)),
        r.1 == no(list_view(*l)),
        r.2 == np(list_view(*l)),
    decreases l,
{
    let ghost v = list_view(*l);
    proof {
        lemma_view_parts(*l);
        lemma_sums_mono(v, 0, v.lists.len() as int);
        lemma_op_mono(v, 0, v.objects.len() as int);
    }
    let k = l.lists.len();
    let mut a: u64 = 0;
    let mut b: u64 = 0;
    let mut c: u64 = 0;
    let mut i: usize = 0;
    while i < k
        invariant
            i <= k,
            k == l.lists@.len(),
            v == list_view(*l),
            v.lists.len() == k,
            forall|j: int|
                0 <= j < l.lists@.len() ==> #[trigger] v.lists[j] == (
                    l.lists@[j].0.spec_hash(),
                    list_view(l.lists@[j].1),
                ),
            a == nl_sum(v, i as int),
            b == no_sum(v, i as int),
            c == np_sum(v, i as int),
            nl(v) + no(v) + np(v) <= u32::MAX,
        decreases k - i,
    {
        proof {
            lemma_sums_mono(v, i + 1, k as int);
            assert(v.lists[i as int].1 == list_view(l.lists@[i as int].1));
            assert(decreases_to!(*l => l.lists));
            assert(decreases_to!(l.lists => l.lists@));
            assert(decreases_to!(l.lists@ => l.lists@[i as int]));
            assert(decreases_to!(l.lists@[i as int] => l.lists@[i as int].1));
        }
        let x = tree_counts(&l.lists[i].1);
        a = a + x.0;
        b = b + x.1;
        c = c + x.2;
        i += 1;
    }
    let mut p: u64 = 0;
    let mut m: usize = 0;
    while m < l.objects.len()
        invariant
            m <= l.objects@.len(),
            v == list_view(*l),
            v.objects.len() == l.objects@.len(),
            forall|j: int|
                0 <= j < l.objects@.len() ==> #[trigger] v.objects[j] == (
                    l.objects@[j].0.spec_hash(),
                    object_view(l.objects@[j].1),
                ),
            p == op_sum(v, m as int),
            op_sum(v, v.objects.len() as int) <= np(v),
            nl(v) + no(v) + np(v) <= u32::MAX,
        decreases l.objects@.len() - m,
    {
        proof {
            lemma_op_mono(v, m + 1, v.objects.len() as int);
            assert(v.objects[m as int].1.len() == l.objects@[m as int].1.0@.len());
        }
        p = p + l.objects[m].1.0.len() as u64;
        m += 1;
    }
    (1 + a, l.objects.len() as u64 + b, c + p)
}

/// Appends a 16-bit field holding `x` truncated to 16 bits.
fn push_u16f(out: &mut Vec<u8>, x: u64)
    ensures
        final(out)@ == old(out)@ + u16f(x as int),
{
    push_u16(out, (x % 0x10000) as u16, Endian::Little);
}

/// Appends the record of list `l`.
fn push_list_rec(out: &mut Vec<u8>, name: u32, l: &ParameterList, g: u64, s: u64, o: u64, nlt: u64)
    requires
        g <= s <= u32::MAX,
        g <= nlt <= u32::MAX,
        o <= u32::MAX,
    ensures
        final(out)@ == old(out)@ + list_rec(name, list_view(*l), g as int, s as int, o as int, nlt as int),
{
    proof {
        lemma_view_parts(*l);
    }
    let ghost start = out@;
    push_u32(out, name, Endian::Little);
    push_u16f(out, 3 * (s - g));
    push_u16f(out, l.lists.len() as u64);
    push_u16f(out, 3 * (nlt - g) + 2 * o);
    push_u16f(out, l.objects.len() as u64);
    assert(out@ =~= start + list_rec(name, list_view(*l), g as int, s as int, o as int, nlt as int));
}

/// Appends the records of all lists below `l`, where the records of `l`'s
/// children start at index `s` and `l`'s objects at object index `o`.
fn write_desc(l: &ParameterList, s: u64, o: u64, nlt: u64, out: &mut Vec<u8>)
    requires
        nl(list_view(*l)) + no(list_view(*l)) + np(list_view(*l)) <= u32::MAX,
        s + nl(list_view(*l)) - 1 <= nlt <= u32::MAX,
        o + no(list_view(*l)) <= u32::MAX,
    ensures
        final(out)@ == old(out)@ + desc_recs(list_view(*l), s as int, o as int, nlt as int),
    decreases l,
{
    let ghost v = list_view(*l);
    proof {
        lemma_view_parts(*l);
        lemma_sums_mono(v, 0, v.lists.len() as int);
    }
    let ghost start = out@;
    let k = l.lists.len();
    let mut cs: u64 = s + k as u64;
    let mut os: u64 = o + l.objects.len() as u64;
    let mut i: usize = 0;
    while i < k
        invariant
            i <= k,
            k == l.lists@.len(),
            v == list_view(*l),
            v.lists.len() == k,
            v.objects.len() == l.objects@.len(),
            forall|j: int|
                0 <= j < l.lists@.len() ==> #[trigger] v.lists[j] == (
                    l.lists@[j].0.spec_hash(),
                    list_view(l.lists@[j].1),
                ),
            nl(v) + no(v) + np(v) <= u32::MAX,
            s + nl(v) - 1 <= nlt <= u32::MAX,
            o + no(v) <= u32::MAX,
            cs == child_start(v, s as int, i as int),
            os == child_objs(v, o as int, i as int),
            out@ + child_recs(v, s as int, o as int, i as int, nlt as int) == start + child_recs(
                v,
                s as int,
                o as int,
                0,
                nlt as int,
            ),
        decreases k - i,
    {
        proof {
            lemma_sums_mono(v, i + 1, k as int);
            lemma_sums_mono(v, 0, i as int);
            assert(nl(v.lists[i as int].1) >= 1);
            lemma_sums_mono(v.lists[i as int].1, 0, v.lists[i as int].1.lists.len() as int);
        }
        let child = &l.lists[i];
        let counts = tree_counts(&child.1);
        let ghost before = out@;
        push_list_rec(out, child.0.hash(), &child.1, s + i as u64, cs, os, nlt);
        assert(out@ + child_recs(v, s as int, o as int, i + 1, nlt as int) =~= before
            + child_recs(v, s as int, o as int, i as int, nlt as int));
        cs = cs + counts.0 - 1;
        os = os + counts.1;
        i += 1;
    }
    assert(child_recs(v, s as int, o as int, k as int, nlt as int) =~= Seq::<u8>::empty());
    let ghost mid = out@;
    cs = s + k as u64;
    os = o + l.objects.len() as u64;
    i = 0;
    while i < k
        invariant
            i <= k,
            k == l.lists@.len(),
            v == list_view(*l),
            v.lists.len() == k,
            v.objects.len() == l.objects@.len(),
            forall|j: int|
                0 <= j < l.lists@.len() ==> #[trigger] v.lists[j] == (
                    l.lists@[j].0.spec_hash(),
                    list_view(l.lists@[j].1),
                ),
            nl(v) + no(v) + np(v) <= u32::MAX,
            s + nl(v) - 1 <= nlt <= u32::MAX,
            o + no(v) <= u32::MAX,
            cs == child_start(v, s as int, i as int),
            os == child_objs(v, o as int, i as int),
            out@ + desc_from(v, s as int, o as int, i as int, nlt as int) == mid + desc_from(
                v,
                s as int,
                o as int,
                0,
                nlt as int,
            ),
        decreases k - i,
    {
        proof {
            lemma_sums_mono(v, i + 1, k as int);
            assert(nl(v.lists[i as int].1) >= 1);
            assert(decreases_to!(*l => l.lists));
            assert(decreases_to!(l.lists => l.lists@));
            assert(decreases_to!(l.lists@ => l.lists@[i as int]));
            assert(decreases_to!(l.lists@[i as int] => l.lists@[i as int].1));
        }
        let child = &l.lists[i];
        let counts = tree_counts(&child.1);
        let ghost before = out@;
        write_desc(&child.1, cs, os, nlt, out);
        assert(out@ + desc_from(v, s as int, o as int, i + 1, nlt as int) =~= before + desc_from(
            v,
            s as int,
            o as int,
            i as int,
            nlt as int,
        ));
        cs = cs + counts.0 - 1;
        os = os + counts.1;
        i += 1;
    }
    assert(desc_from(v, s as int, o as int, k as int, nlt as int) =~= Seq::<u8>::empty());
    assert(out@ =~= start + desc_recs(v, s as int, o as int, nlt as int));
}

/// The parameter index of the first parameter of `l`'s own objects, where
/// the parameters of its subtree start at `p`.
fn own_params_at(l: &ParameterList, p: u64) -> (r: u64)
    requires
        nl(list_view(*l)) + no(list_view(*l)) + np(list_view(*l)) <= u32::MAX,
        p + np(list_view(*l)) <= u32::MAX,
    ensures
        r == own_params(list_view(*l), p as int),
{
    let ghost v = list_view(*l);
    proof {
        lemma_view_parts(*l);
        lemma_sums_mono(v, 0, v.lists.len() as int);
    }
    let mut r: u64 = p;
    let mut i: usize = 0;
    while i < l.lists.len()
        invariant
            i <= l.lists@.len(),
            v == list_view(*l),
            v.lists.len() == l.lists@.len(),
            forall|j: int|
                0 <= j < l.lists@.len() ==> #[trigger] v.lists[j] == (
                    l.lists@[j].0.spec_hash(),
                    list_view(l.lists@[j].1),
                ),
            nl(v) + no(v) + np(v) <= u32::MAX,
            p + np(v) <= u32::MAX,
            r == p + np_sum(v, i as int),
        decreases l.lists@.len() - i,
    {
        proof {
            lemma_sums_mono(v, i + 1, v.lists.len() as int);
            lemma_sums_mono(v, 0, i as int);
            assert(nl(v.lists[i as int].1) >= 1);
        }
        let counts = tree_counts(&l.lists[i].1);
        r = r + counts.2;
        i += 1;
    }
    r
}

/// Appends the object records of the subtree of `l`, whose objects start
/// at object index `o` and whose parameters at parameter index `p`.
fn write_objs(l: &ParameterList, o: u64, p: u64, not: u64, out: &mut Vec<u8>)
    requires
        nl(list_view(*l)) + no(list_view(*l)) + np(list_view(*l)) <= u32::MAX,
        o + no(list_view(*l)) <= not <= u32::MAX,
        p + np(list_view(*l)) <= u32::MAX,
    ensures
        final(out)@ == old(out)@ + objs_region(list_view(*l), o as int, p as int, not as int),
    decreases l,
{
    let ghost v = list_view(*l);
    proof {
        lemma_view_parts(*l);
        lemma_sums_mono(v, 0, v.lists.len() as int);
        lemma_op_mono(v, 0, v.objects.len() as int);
    }
    let ghost start = out@;
    let pown = own_params_at(l, p);
    let mut pm: u64 = pown;
    let mut m: usize = 0;
    while m < l.objects.len()
        invariant
            m <= l.objects@.len(),
            v == list_view(*l),
            v.objects.len() == l.objects@.len(),
            forall|j: int|
                0 <= j < l.objects@.len() ==> #[trigger] v.objects[j] == (
                    l.objects@[j].0.spec_hash(),
                    object_view(l.objects@[j].1),
                ),
            o + no(v) <= not <= u32::MAX,
            p + np(v) <= u32::MAX,
            pown == own_params(v, p as int),
            op_sum(v, v.objects.len() as int) + np_sum(v, v.lists.len() as int) == np(v),
            v.objects.len() + no_sum(v, v.lists.len() as int) == no(v),
            pm == pown + op_sum(v, m as int),
            out@ + obj_recs(v, o as int, p as int, m as int, not as int) == start + obj_recs(
                v,
                o as int,
                p as int,
                0,
                not as int,
            ),
        decreases l.objects@.len() - m,
    {
        proof {
            lemma_op_mono(v, m + 1, v.objects.len() as int);
        }
        let obj = &l.objects[m];
        let ghost before = out@;
        push_u32(out, obj.0.hash(), Endian::Little);
        push_u16f(out, 2 * (not - (o + m as u64) + pm));
        push_u16f(out, obj.1.0.len() as u64);
        assert(out@ + obj_recs(v, o as int, p as int, m + 1, not as int) =~= before + obj_recs(
            v,
            o as int,
            p as int,
            m as int,
            not as int,
        ));
        pm = pm + obj.1.0.len() as u64;
        m += 1;
    }
    assert(obj_recs(v, o as int, p as int, l.objects@.len() as int, not as int) =~= Seq::<
        u8,
    >::empty());
    let ghost mid = out@;
    let k = l.lists.len();
    let mut os: u64 = o + l.objects.len() as u64;
    let mut ps: u64 = p;
    let mut i: usize = 0;
    while i < k
        invariant
            i <= k,
            k == l.lists@.len(),
            v == list_view(*l),
            v.lists.len() == k,
            v.objects.len() == l.objects@.len(),
            forall|j: int|
                0 <= j < l.lists@.len() ==> #[trigger] v.lists[j] == (
                    l.lists@[j].0.spec_hash(),
                    list_view(l.lists@[j].1),
                ),
            nl(v) + no(v) + np(v) <= u32::MAX,
            o + no(v) <= not <= u32::MAX,
            p + np(v) <= u32::MAX,
            os == child_objs(v, o as int, i as int),
            ps == p + np_sum(v, i as int),
            out@ + objs_from(v, o as int, p as int, i as int, not as int) == mid + objs_from(
                v,
                o as int,
                p as int,
                0,
                not as int,
            ),
        decreases k - i,
    {
        proof {
            lemma_sums_mono(v, i + 1, k as int);
            assert(nl(v.lists[i as int].1) >= 1);
            assert(decreases_to!(*l => l.lists));
            assert(decreases_to!(l.lists => l.lists@));
            assert(decreases_to!(l.lists@ => l.lists@[i as int]));
            assert(decreases_to!(l.lists@[i as int] => l.lists@[i as int].1));
        }
        let child = &l.lists[i];
        let counts = tree_counts(&child.1);
        let ghost before = out@;
        write_objs(&child.1, os, ps, not, out);
        assert(out@ + objs_from(v, o as int, p as int, i + 1, not as int) =~= before + objs_from(
            v,
            o as int,
            p as int,
            i as int,
            not as int,
        ));
        os = os + counts.1;
        ps = ps + counts.2;
        i += 1;
    }
    assert(objs_from(v, o as int, p as int, k as int, not as int) =~= Seq::<u8>::empty());
    assert(out@ =~= start + objs_region(v, o as int, p as int, not as int));
}

/// Appends the parameter records of an object, with no data offsets yet.
fn write_obj_params(obj: &ParameterObject, out: &mut Vec<u8>)
    ensures
        final(out)@ == old(out)@ + obj_param_recs(object_view(*obj), 0),
{
    let ghost ov = object_view(*obj);
    let ghost start = out@;
    let mut q: usize = 0;
    while q < obj.0.len()
        invariant
            q <= obj.0@.len(),
            ov == object_view(*obj),
            ov.len() == obj.0@.len(),
            out@ + obj_param_recs(ov, q as int) == start + obj_param_recs(ov, 0),
        decreases obj.0@.len() - q,
    {
        let entry = &obj.0[q];
        assert(ov[q as int] == (entry.0.spec_hash(), param_view(entry.1)));
        let ghost before = out@;
        push_u32(out, entry.0.hash(), Endian::Little);
        out.push(0);
        out.push(0);
        out.push(0);
        out.push(entry.1.type_code());
        assert(out@ + obj_param_recs(ov, q + 1) =~= before + obj_param_recs(ov, q as int));
        q += 1;
    }
    assert(obj_param_recs(ov, obj.0@.len() as int) =~= Seq::<u8>::empty());
    assert(out@ =~= start + obj_param_recs(ov, 0));
}

/// Appends the parameter records of the subtree of `l`, with no data
/// offsets yet.
fn write_params(l: &ParameterList, out: &mut Vec<u8>)
    ensures
        final(out)@ == old(out)@ + params_region(list_view(*l)),
    decreases l,
{
    let ghost v = list_view(*l);
    proof {
        lemma_view_parts(*l);
    }
    let ghost start = out@;
    let k = l.lists.len();
    let mut i: usize = 0;
    while i < k
        invariant
            i <= k,
            k == l.lists@.len(),
            v == list_view(*l),
            v.lists.len() == k,
            forall|j: int|
                0 <= j < l.lists@.len() ==> #[trigger] v.lists[j] == (
                    l.lists@[j].0.spec_hash(),
                    list_view(l.lists@[j].1),
                ),
            out@ + params_from(v, i as int) == start + params_from(v, 0),
        decreases k - i,
    {
        proof {
            assert(decreases_to!(*l => l.lists));
            assert(decreases_to!(l.lists => l.lists@));
            assert(decreases_to!(l.lists@ => l.lists@[i as int]));
            assert(decreases_to!(l.lists@[i as int] => l.lists@[i as int].1));
        }
        let ghost before = out@;
        write_params(&l.lists[i].1, out);
        assert(out@ + params_from(v, i + 1) =~= before + params_from(v, i as int));
        i += 1;
    }
    assert(params_from(v, k as int) =~= Seq::<u8>::empty());
    let ghost mid = out@;
    let mut m: usize = 0;
    while m < l.objects.len()
        invariant
            m <= l.objects@.len(),
            v == list_view(*l),
            v.objects.len() == l.objects@.len(),
            forall|j: int|
                0 <= j < l.objects@.len() ==> #[trigger] v.objects[j] == (
                    l.objects@[j].0.spec_hash(),
                    object_view(l.objects@[j].1),
                ),
            out@ + own_param_recs(v, m as int) == mid + own_param_recs(v, 0),
        decreases l.objects@.len() - m,
    {
        let ghost before = out@;
        write_obj_params(&l.objects[m].1, out);
        assert(out@ + own_param_recs(v, m + 1) =~= before + own_param_recs(v, m as int));
        m += 1;
    }
    assert(own_param_recs(v, l.objects@.len() as int) =~= Seq::<u8>::empty());
    assert(out@ =~= start + params_region(v));
}

/// The items of a queue of parameters with their record indices.
pub open spec fn items_view(q: Seq<(u64, &Parameter)>) -> Seq<Item> {
    Seq::new(q.len(), |i: int| (q[i].0 as int, param_view(*q[i].1)))
}

/// Both queues.
pub open spec fn queues_view(dq: Seq<(u64, &Parameter)>, sq: Seq<(u64, &Parameter)>) -> Queues {
    (items_view(dq), items_view(sq))
}

/// The first queue holds no strings, the second only strings.
pub open spec fn typed_queues(dq: Seq<(u64, &Parameter)>, sq: Seq<(u64, &Parameter)>) -> bool {
    &&& forall|i: int| 0 <= i < dq.len() ==> !is_str_type(#[trigger] param_view(*dq[i].1).0)
    &&& forall|i: int| 0 <= i < sq.len() ==> is_str_type(#[trigger] param_view(*sq[i].1).0)
}

/// Queues the parameters of an object, whose records start at `base`.
fn push_obj_items<'a>(
    obj: &'a ParameterObject,
    base: u64,
    dq: &mut Vec<(u64, &'a Parameter)>,
    sq: &mut Vec<(u64, &'a Parameter)>,
)
    requires
        base + obj.0@.len() <= u32::MAX,
        typed_queues(old(dq)@, old(sq)@),
    ensures
        typed_queues(final(dq)@, final(sq)@),
        queues_view(final(dq)@, final(sq)@) == cat2(
            queues_view(old(dq)@, old(sq)@),
            obj_items(object_view(*obj), base as int, 0),
        ),
{
    let ghost ov = object_view(*obj);
    let ghost start = queues_view(dq@, sq@);
    let mut q: usize = 0;
    while q < obj.0.len()
        invariant
            q <= obj.0@.len(),
            base + obj.0@.len() <= u32::MAX,
            typed_queues(dq@, sq@),
            ov == object_view(*obj),
            ov.len() == obj.0@.len(),
            cat2(queues_view(dq@, sq@), obj_items(ov, base as int, q as int)) == cat2(
                start,
                obj_items(ov, base as int, 0),
            ),
        decreases obj.0@.len() - q,
    {
        let entry = &obj.0[q];
        assert(ov[q as int] == (entry.0.spec_hash(), param_view(entry.1)));
        let ghost before = queues_view(dq@, sq@);
        let ghost rest = obj_items(ov, base as int, q + 1);
        let t = entry.1.type_code();
        if t == 7 || t == 8 || t == 15 || t == 20 {
            sq.push((base + q as u64, &entry.1));
        } else {
            dq.push((base + q as u64, &entry.1));
        }
        assert(cat2(queues_view(dq@, sq@), rest).0 =~= cat2(before, obj_items(ov, base as int, q as int)).0);
        assert(cat2(queues_view(dq@, sq@), rest).1 =~= cat2(before, obj_items(ov, base as int, q as int)).1);
        q += 1;
    }
    let ghost e = obj_items(ov, base as int, obj.0@.len() as int);
    assert(e.0 =~= Seq::<Item>::empty() && e.1 =~= Seq::<Item>::empty());
    assert(cat2(queues_view(dq@, sq@), e).0 =~= queues_view(dq@, sq@).0);
    assert(cat2(queues_view(dq@, sq@), e).1 =~= queues_view(dq@, sq@).1);
}

/// Queues the parameters of `l`'s own objects `m1` up to `m2`; `pm` is the
/// record index of the first parameter of object `m1`. Returns that of
/// object `m2`.
fn push_objs_range<'a>(
    l: &'a ParameterList,
    p: u64,
    m1: usize,
    m2: usize,
    pm: u64,
    dq: &mut Vec<(u64, &'a Parameter)>,
    sq: &mut Vec<(u64, &'a Parameter)>,
) -> (r: u64)
    requires
        m1 <= m2 <= l.objects@.len(),
        p + np(list_view(*l)) <= u32::MAX,
        pm == own_params(list_view(*l), p as int) + op_sum(list_view(*l), m1 as int),
        typed_queues(old(dq)@, old(sq)@),
    ensures
        typed_queues(final(dq)@, final(sq)@),
        r == own_params(list_view(*l), p as int) + op_sum(list_view(*l), m2 as int),
        queues_view(final(dq)@, final(sq)@) == cat2(
            queues_view(old(dq)@, old(sq)@),
            objs_items(list_view(*l), p as int, m1 as int, m2 as int),
        ),
{
    let ghost v = list_view(*l);
    proof {
        lemma_view_parts(*l);
        lemma_op_mono(v, 0, v.objects.len() as int);
    }
    let ghost start = queues_view(dq@, sq@);
    let mut pm = pm;
    let mut m: usize = m1;
    while m < m2
        invariant
            m1 <= m <= m2 <= l.objects@.len(),
            v == list_view(*l),
            v.objects.len() == l.objects@.len(),
            forall|j: int|
                0 <= j < l.objects@.len() ==> #[trigger] v.objects[j] == (
                    l.objects@[j].0.spec_hash(),
                    object_view(l.objects@[j].1),
                ),
            p + np(v) <= u32::MAX,
            op_sum(v, v.objects.len() as int) + np_sum(v, v.lists.len() as int) == np(v),
            pm == own_params(v, p as int) + op_sum(v, m as int),
            typed_queues(dq@, sq@),
            cat2(queues_view(dq@, sq@), objs_items(v, p as int, m as int, m2 as int)) == cat2(
                start,
                objs_items(v, p as int, m1 as int, m2 as int),
            ),
        decreases m2 - m,
    {
        proof {
            lemma_op_mono(v, m + 1, v.objects.len() as int);
        }
        let ghost before = queues_view(dq@, sq@);
        let ghost rest = objs_items(v, p as int, m + 1, m2 as int);
        push_obj_items(&l.objects[m].1, pm, dq, sq);
        assert(cat2(queues_view(dq@, sq@), rest).0 =~= cat2(before, objs_items(v, p as int, m as int, m2 as int)).0);
        assert(cat2(queues_view(dq@, sq@), rest).1 =~= cat2(before, objs_items(v, p as int, m as int, m2 as int)).1);
        pm = pm + l.objects[m].1.0.len() as u64;
        m += 1;
    }
    let ghost e = objs_items(v, p as int, m2 as int, m2 as int);
    assert(e.0 =~= Seq::<Item>::empty() && e.1 =~= Seq::<Item>::empty());
    assert(cat2(queues_view(dq@, sq@), e).0 =~= queues_view(dq@, sq@).0);
    assert(cat2(queues_view(dq@, sq@), e).1 =~= queues_view(dq@, sq@).1);
    pm
}

/// Queues the parameters of the subtree of `l`, whose records start at
/// `p`, in the order in which their data is written.
fn collect_params<'a>(
    l: &'a ParameterList,
    top: bool,
    p: u64,
    ai: u32,
    dq: &mut Vec<(u64, &'a Parameter)>,
    sq: &mut Vec<(u64, &'a Parameter)>,
)
    requires
        nl(list_view(*l)) + no(list_view(*l)) + np(list_view(*l)) <= u32::MAX,
        p + np(list_view(*l)) <= u32::MAX,
        ai == ai_action_hash(),
        typed_queues(old(dq)@, old(sq)@),
    ensures
        typed_queues(final(dq)@, final(sq)@),
        queues_view(final(dq)@, final(sq)@) == cat2(
            queues_view(old(dq)@, old(sq)@),
            collect(list_view(*l), top, p as int),
        ),
    decreases l,
{
    let ghost v = list_view(*l);
    proof {
        lemma_view_parts(*l);
        lemma_sums_mono(v, 0, v.lists.len() as int);
        lemma_op_mono(v, 0, v.objects.len() as int);
    }
    let ghost start = queues_view(dq@, sq@);
    let n_obj = l.objects.len();
    let aiprog = n_obj > 0 && l.objects[0].0.hash() == ai;
    assert(aiprog == ai_prog(v));
    let m0: usize = if top && !aiprog {
        if n_obj < 7 {
            n_obj
        } else {
            7
        }
    } else {
        0
    };
    let pown = own_params_at(l, p);
    let mut pm = push_objs_range(l, p, 0, m0, pown, dq, sq);
    let ghost after_first = queues_view(dq@, sq@);
    let k = l.lists.len();
    let mut m: usize = m0;
    let mut ps: u64 = p;
    let mut i: usize = 0;
    while i < k
        invariant
            i <= k,
            k == l.lists@.len(),
            m <= n_obj,
            n_obj == l.objects@.len(),
            v == list_view(*l),
            v.lists.len() == k,
            v.objects.len() == n_obj,
            forall|j: int|
                0 <= j < l.lists@.len() ==> #[trigger] v.lists[j] == (
                    l.lists@[j].0.spec_hash(),
                    list_view(l.lists@[j].1),
                ),
            aiprog == ai_prog(v),
            ai == ai_action_hash(),
            nl(v) + no(v) + np(v) <= u32::MAX,
            p + np(v) <= u32::MAX,
            ps == p + np_sum(v, i as int),
            pm == own_params(v, p as int) + op_sum(v, m as int),
            typed_queues(dq@, sq@),
            cat2(queues_view(dq@, sq@), collect_from(v, p as int, i as int, m as int)) == cat2(
                after_first,
                collect_from(v, p as int, 0, m0 as int),
            ),
        decreases k - i,
    {
        proof {
            lemma_sums_mono(v, i + 1, k as int);
            lemma_sums_mono(v, 0, i as int);
            assert(nl(v.lists[i as int].1) >= 1);
            assert(decreases_to!(*l => l.lists));
            assert(decreases_to!(l.lists => l.lists@));
            assert(decreases_to!(l.lists@ => l.lists@[i as int]));
            assert(decreases_to!(l.lists@[i as int] => l.lists@[i as int].1));
        }
        let ghost before = queues_view(dq@, sq@);
        let m2: usize = if !aiprog && i % 2 == 0 && m < n_obj {
            m + 1
        } else {
            m
        };
        let ghost rest = collect_from(v, p as int, i + 1, m2 as int);
        pm = push_objs_range(l, p, m, m2, pm, dq, sq);
        let ghost mid = queues_view(dq@, sq@);
        let child = &l.lists[i];
        let counts = tree_counts(&child.1);
        collect_params(&child.1, false, ps, ai, dq, sq);
        assert(cat2(queues_view(dq@, sq@), rest).0 =~= cat2(before, collect_from(v, p as int, i as int, m as int)).0);
        assert(cat2(queues_view(dq@, sq@), rest).1 =~= cat2(before, collect_from(v, p as int, i as int, m as int)).1);
        ps = ps + counts.2;
        m = m2;
        i += 1;
    }
    let ghost before = queues_view(dq@, sq@);
    push_objs_range(l, p, m, n_obj, pm, dq, sq);
    assert(queues_view(dq@, sq@).0 =~= cat2(start, collect(v, top, p as int)).0);
    assert(queues_view(dq@, sq@).1 =~= cat2(start, collect(v, top, p as int)).1);
}

/// Appends words, little endian.
fn push_words(out: &mut Vec<u8>, ws: &[u32])
    ensures
        final(out)@ == old(out)@ + words_le(ws@),
{
    let ghost start = out@;
    let mut i: usize = 0;
    while i < ws.len()
        invariant
            i <= ws@.len(),
            out@ == start + words_le(ws@.take(i as int)),
        decreases ws@.len() - i,
    {
        push_u32(out, ws[i], Endian::Little);
        assert(ws@.take(i + 1).drop_last() =~= ws@.take(i as int));
        i += 1;
        assert(out@ =~= start + words_le(ws@.take(i as int)));
    }
    assert(ws@.take(ws@.len() as int) =~= ws@);
}

/// The words of curves.
fn curve_words(cs: &[Curve]) -> (r: Vec<u32>)
    ensures
        r@ == curves_words(cs@),
{
    let mut r: Vec<u32> = Vec::new();
    let mut i: usize = 0;
    while i < cs.len()
        invariant
            i <= cs@.len(),
            r@ == curves_words(cs@.take(i as int)),
        decreases cs@.len() - i,
    {
        let c = &cs[i];
        let ghost before = r@;
        r.push(c.a);
        r.push(c.b);
        let mut k: usize = 0;
        while k < c.floats.len()
            invariant
                k <= c.floats@.len(),
                r@ == before + seq![c.a, c.b] + c.floats@.take(k as int),
            decreases c.floats@.len() - k,
        {
            r.push(c.floats[k]);
            k += 1;
            assert(r@ =~= before + seq![c.a, c.b] + c.floats@.take(k as int));
        }
        assert(cs@.take(i + 1).drop_last() =~= cs@.take(i as int));
        assert(c.floats@.take(k as int) =~= c.floats@);
        i += 1;
        assert(r@ =~= curves_words(cs@.take(i as int)));
    }
    assert(cs@.take(cs@.len() as int) =~= cs@);
    r
}

/// Appends the words of a small value.
fn push_small(out: &mut Vec<u8>, ws: Vec<u32>)
    ensures
        final(out)@ == old(out)@ + words_le(ws@),
{
    push_words(out, ws.as_slice());
}

/// Appends the data of a parameter that is not a string.
fn push_data(p: &Parameter, out: &mut Vec<u8>)
    requires
        !is_str_type(param_view(*p).0),
    ensures
        final(out)@ == old(out)@ + data_entry(param_view(*p).0, param_view(*p).1),
{
    let ghost start = out@;
    match p {
        Parameter::Bool(b) => {
            push_u32(out, if *b { 1 } else { 0 }, Endian::Little);
        },
        Parameter::F32(x) => {
            let ws = vec![*x];
            assert(ws@ =~= seq![*x]);
            push_small(out, ws);
        },
        Parameter::Int(x) => {
            let ws = vec![*x as u32];
            assert(ws@ =~= seq![*x as u32]);
            push_small(out, ws);
        },
        Parameter::Vec2(v) => {
            let ws = vec![v.x, v.y];
            assert(ws@ =~= seq![v.x, v.y]);
            push_small(out, ws);
        },
        Parameter::Vec3(v) => {
            let ws = vec![v.x, v.y, v.z];
            assert(ws@ =~= seq![v.x, v.y, v.z]);
            push_small(out, ws);
        },
        Parameter::Vec4(v) => {
            let ws = vec![v.x, v.y, v.z, v.t];
            assert(ws@ =~= seq![v.x, v.y, v.z, v.t]);
            push_small(out, ws);
        },
        Parameter::Color(v) => {
            let ws = vec![v.r, v.g, v.b, v.a];
            assert(ws@ =~= seq![v.r, v.g, v.b, v.a]);
            push_small(out, ws);
        },
        Parameter::Quat(v) => {
            let ws = vec![v.a, v.b, v.c, v.d];
            assert(ws@ =~= seq![v.a, v.b, v.c, v.d]);
            push_small(out, ws);
        },
        Parameter::U32(x) => {
            let ws = vec![*x];
            assert(ws@ =~= seq![*x]);
            push_small(out, ws);
        },
        Parameter::Curve1(cs) | Parameter::Curve2(cs) | Parameter::Curve3(cs)
        | Parameter::Curve4(cs) => {
            let ws = curve_words(cs.as_slice());
            push_small(out, ws);
        },
        Parameter::BufferInt(v) => {
            let mut ws: Vec<u32> = Vec::new();
            let mut i: usize = 0;
            while i < v.len()
                invariant
                    i <= v@.len(),
                    ws@ =~= v@.take(i as int).map_values(|x: i32| x as u32),
                decreases v@.len() - i,
            {
                ws.push(v[i] as u32);
                i += 1;
                assert(ws@ =~= v@.take(i as int).map_values(|x: i32| x as u32));
            }
            assert(v@.take(i as int) =~= v@);
            push_u32(out, v.len() as u32, Endian::Little);
            push_words(out, ws.as_slice());
        },
        Parameter::BufferF32(v) | Parameter::BufferU32(v) => {
            push_u32(out, v.len() as u32, Endian::Little);
            push_words(out, v.as_slice());
        },
        Parameter::BufferBinary(v) => {
            push_u32(out, v.len() as u32, Endian::Little);
            push_bytes(out, v.as_slice());
        },
        _ => {},
    }
    assert(out@ =~= start + data_entry(param_view(*p).0, param_view(*p).1));
}

/// The first item with the same data is the first one whose data is the
/// same.
proof fn lemma_first_data(items: Seq<Item>, n: int, key: (bool, Seq<u8>))
    requires
        0 <= n <= items.len(),
    ensures
        match first_data(items, n, key) {
            Some(j) => 0 <= j < n && data_key(items[j]) == key && forall|i: int|
                0 <= i < j ==> data_key(#[trigger] items[i]) != key,
            None => forall|i: int| 0 <= i < n ==> data_key(#[trigger] items[i]) != key,
        },
    decreases n,
{
    if n > 0 {
        lemma_first_data(items, n - 1, key);
    }
}

/// The first item with the same string is the first one whose string is
/// the same.
proof fn lemma_first_str(items: Seq<Item>, n: int, key: Seq<u8>)
    requires
        0 <= n <= items.len(),
    ensures
        match first_str(items, n, key) {
            Some(j) => 0 <= j < n && str_bytes(items[j].1.1) == key && forall|i: int|
                0 <= i < j ==> str_bytes(#[trigger] items[i].1.1) != key,
            None => forall|i: int| 0 <= i < n ==> str_bytes(#[trigger] items[i].1.1) != key,
        },
    decreases n,
{
    if n > 0 {
        lemma_first_str(items, n - 1, key);
    }
}

/// The data section only grows as items are added.
proof fn lemma_data_run_prefix(items: Seq<Item>, n: int, m: int)
    requires
        0 <= n <= m <= items.len(),
    ensures
        data_run(items, n).0.len() <= data_run(items, m).0.len(),
    decreases m,
{
    if n < m {
        lemma_data_run_prefix(items, n, m - 1);
    }
}

/// A data run has an offset for each item, each within the section.
proof fn lemma_data_run_offs(items: Seq<Item>, m: int)
    requires
        0 <= m <= items.len(),
    ensures
        data_run(items, m).1.len() == m,
        forall|j: int| 0 <= j < m ==> 0 <= #[trigger] data_run(items, m).1[j] <= data_run(items, m).0.len() + 4,
    decreases m,
{
    if m > 0 {
        lemma_data_run_offs(items, m - 1);
        lemma_first_data(items, m - 1, data_key(items[m - 1]));
    }
}

/// The string section only grows as items are added.
proof fn lemma_str_run_prefix(items: Seq<Item>, n: int, m: int)
    requires
        0 <= n <= m <= items.len(),
    ensures
        str_run(items, n).0.len() <= str_run(items, m).0.len(),
    decreases m,
{
    if n < m {
        lemma_str_run_prefix(items, n, m - 1);
    }
}

/// A string run has an offset for each item, each within the section.
proof fn lemma_str_run_offs(items: Seq<Item>, m: int)
    requires
        0 <= m <= items.len(),
    ensures
        str_run(items, m).1.len() == m,
        forall|j: int| 0 <= j < m ==> 0 <= #[trigger] str_run(items, m).1[j] <= str_run(items, m).0.len(),
    decreases m,
{
    if m > 0 {
        lemma_str_run_offs(items, m - 1);
        lemma_first_str(items, m - 1, str_bytes(items[m - 1].1.1));
    }
}

/// Appends the zeros that pad `n` bytes to a multiple of four.
fn push_pad(out: &mut Vec<u8>, n: usize)
    ensures
        final(out)@ == old(out)@ + pad_zeros(n as int),
{
    let ghost start = out@;
    let k = (4 - n % 4) % 4;
    let mut z: usize = 0;
    while z < k
        invariant
            z <= k,
            k == (4 - n % 4) % 4,
            out@ == start + Seq::new(z as nat, |i: int| 0u8),
        decreases k - z,
    {
        out.push(0);
        z += 1;
        assert(out@ =~= start + Seq::new(z as nat, |i: int| 0u8));
    }
}

/// The offsets of a run, as integers.
pub open spec fn offs_view(v: Seq<u64>) -> Seq<int> {
    Seq::new(v.len(), |i: int| v[i] as int)
}

/// The keys kept for the first items of a run.
pub open spec fn keys_match(keys: Seq<(bool, Vec<u8>)>, iv: Seq<Item>) -> bool {
    keys.len() <= iv.len() && forall|j: int|
        0 <= j < keys.len() ==> (#[trigger] keys[j]).0 == data_key(iv[j]).0 && keys[j].1@ == data_key(
            iv[j],
        ).1
}

/// The first of the kept keys that is `(buf, e)`.
fn find_key(keys: &Vec<(bool, Vec<u8>)>, buf: bool, e: &[u8], Ghost(iv): Ghost<Seq<Item>>) -> (r: Option<usize>)
    requires
        keys_match(keys@, iv),
    ensures
        match r {
            Some(j) => first_data(iv, keys@.len() as int, (buf, e@)) == Some(j as int),
            None => first_data(iv, keys@.len() as int, (buf, e@)) is None,
        },
{
    proof {
        lemma_first_data(iv, keys@.len() as int, (buf, e@));
    }
    let mut j: usize = 0;
    while j < keys.len()
        invariant
            j <= keys@.len(),
            keys_match(keys@, iv),
            forall|i: int| 0 <= i < j ==> data_key(#[trigger] iv[i]) != (buf, e@),
        decreases keys@.len() - j,
    {
        if keys[j].0 == buf && bytes_eq(keys[j].1.as_slice(), e) {
            assert(data_key(iv[j as int]) == (buf, e@));
            proof {
                lemma_first_data(iv, keys@.len() as int, (buf, e@));
                match first_data(iv, keys@.len() as int, (buf, e@)) {
                    Some(jj) => {
                        if jj < j {
                            assert(data_key(iv[jj]) != (buf, e@));
                        } else if jj > j {
                            assert(data_key(iv[j as int]) != (buf, e@));
                        }
                    },
                    None => {
                        assert(data_key(iv[j as int]) != (buf, e@));
                    },
                }
            }
            return Some(j);
        }
        assert(data_key(iv[j as int]) != (buf, e@));
        j += 1;
    }
    None
}

/// Adds item `k` of a run to the data section.
fn data_step(
    p: &Parameter,
    data: &mut Vec<u8>,
    offs: &mut Vec<u64>,
    keys: &mut Vec<(bool, Vec<u8>)>,
    Ghost(iv): Ghost<Seq<Item>>,
    Ghost(k): Ghost<int>,
)
    requires
        0 <= k < iv.len(),
        iv[k].1 == param_view(*p),
        !is_str_type(param_view(*p).0),
        data_run(iv, k + 1).0.len() <= u32::MAX,
        old(data)@ == data_run(iv, k).0,
        offs_view(old(offs)@) == data_run(iv, k).1,
        old(keys)@.len() == k,
        keys_match(old(keys)@, iv),
    ensures
        final(data)@ == data_run(iv, k + 1).0,
        offs_view(final(offs)@) == data_run(iv, k + 1).1,
        final(keys)@.len() == k + 1,
        keys_match(final(keys)@, iv),
{
    proof {
        lemma_data_run_prefix(iv, k, k + 1);
    }
    let mut e: Vec<u8> = Vec::new();
    push_data(p, &mut e);
    let t = p.type_code();
    let buf = t == 13 || t == 14 || t == 18 || t == 19;
    assert((buf, e@) == data_key(iv[k]));
    proof {
        lemma_first_data(iv, k, (buf, e@));
    }
    match find_key(keys, buf, e.as_slice(), Ghost(iv)) {
        Some(j) => {
            proof {
                lemma_data_run_offs(iv, k);
            }
            let ghost prev = offs@;
            let o = offs[j];
            assert(o as int == data_run(iv, k).1[j as int]);
            offs.push(o);
            assert(offs_view(offs@) =~= offs_view(prev).push(o as int));
            assert(first_data(iv, k, data_key(iv[k])) == Some(j as int));
            assert(offs_view(offs@) =~= data_run(iv, k + 1).1);
        },
        None => {
            let ghost prev = offs@;
            let o: u64 = data.len() as u64 + if buf { 4 } else { 0 };
            offs.push(o);
            assert(offs_view(offs@) =~= offs_view(prev).push(o as int));
            assert(first_data(iv, k, data_key(iv[k])) is None);
            assert(o == data_run(iv, k).0.len() + if is_buf_type(iv[k].1.0) { 4int } else { 0int });
            assert(offs_view(offs@) =~= data_run(iv, k + 1).1);
            let len = e.len();
            push_bytes(data, e.as_slice());
            push_pad(data, len);
        },
    }
    keys.push((buf, e));
    assert(offs_view(offs@) =~= data_run(iv, k + 1).1);
    assert(data@ =~= data_run(iv, k + 1).0);
}

/// Writes the data section for the queued parameters; returns it and where
/// each parameter's data starts in it.
fn write_data(items: &Vec<(u64, &Parameter)>) -> (r: (Vec<u8>, Vec<u64>))
    requires
        forall|i: int| 0 <= i < items@.len() ==> !is_str_type(#[trigger] param_view(*items@[i].1).0),
        data_run(items_view(items@), items@.len() as int).0.len() <= u32::MAX,
    ensures
        r.0@ == data_run(items_view(items@), items@.len() as int).0,
        offs_view(r.1@) == data_run(items_view(items@), items@.len() as int).1,
{
    let ghost iv = items_view(items@);
    let n = items.len();
    let mut data: Vec<u8> = Vec::new();
    let mut offs: Vec<u64> = Vec::new();
    let mut keys: Vec<(bool, Vec<u8>)> = Vec::new();
    assert(offs_view(offs@) =~= data_run(iv, 0).1);
    let mut k: usize = 0;
    while k < n
        invariant
            k <= n,
            n == items@.len(),
            iv == items_view(items@),
            forall|i: int| 0 <= i < items@.len() ==> !is_str_type(#[trigger] param_view(*items@[i].1).0),
            data_run(iv, n as int).0.len() <= u32::MAX,
            data@ == data_run(iv, k as int).0,
            offs_view(offs@) == data_run(iv, k as int).1,
            keys@.len() == k,
            keys_match(keys@, iv),
        decreases n - k,
    {
        proof {
            lemma_data_run_prefix(iv, k + 1, n as int);
        }
        let p = items[k].1;
        assert(iv[k as int].1 == param_view(*p));
        data_step(p, &mut data, &mut offs, &mut keys, Ghost(iv), Ghost(k as int));
        k += 1;
    }
    (data, offs)
}

/// The bytes of a string parameter.
fn param_str_bytes(p: &Parameter) -> (r: &[u8])
    requires
        is_str_type(param_view(*p).0),
    ensures
        r@ == str_bytes(param_view(*p).1),
{
    match p {
        Parameter::String32(s) => s.as_str().as_bytes(),
        Parameter::String64(s) => s.as_str().as_bytes(),
        Parameter::String256(s) => s.as_str().as_bytes(),
        Parameter::StringRef(s) => s.as_str().as_bytes(),
        _ => {
            assert(false);
            &[]
        },
    }
}

/// The strings kept for the first items of a run.
pub open spec fn strs_match(keys: Seq<Vec<u8>>, iv: Seq<Item>) -> bool {
    keys.len() <= iv.len() && forall|j: int|
        0 <= j < keys.len() ==> (#[trigger] keys[j])@ == str_bytes(iv[j].1.1)
}

/// The first of the kept strings that is `e`.
fn find_str(keys: &Vec<Vec<u8>>, e: &[u8], Ghost(iv): Ghost<Seq<Item>>) -> (r: Option<usize>)
    requires
        strs_match(keys@, iv),
    ensures
        match r {
            Some(j) => first_str(iv, keys@.len() as int, e@) == Some(j as int),
            None => first_str(iv, keys@.len() as int, e@) is None,
        },
{
    let mut j: usize = 0;
    while j < keys.len()
        invariant
            j <= keys@.len(),
            strs_match(keys@, iv),
            forall|i: int| 0 <= i < j ==> str_bytes(#[trigger] iv[i].1.1) != e@,
        decreases keys@.len() - j,
    {
        if bytes_eq(keys[j].as_slice(), e) {
            assert(str_bytes(iv[j as int].1.1) == e@);
            proof {
                lemma_first_str(iv, keys@.len() as int, e@);
                match first_str(iv, keys@.len() as int, e@) {
                    Some(jj) => {
                        if jj < j {
                            assert(str_bytes(iv[jj].1.1) != e@);
                        } else if jj > j {
                            assert(str_bytes(iv[j as int].1.1) != e@);
                        }
                    },
                    None => {
                        assert(str_bytes(iv[j as int].1.1) != e@);
                    },
                }
            }
            return Some(j);
        }
        assert(str_bytes(iv[j as int].1.1) != e@);
        j += 1;
    }
    proof {
        lemma_first_str(iv, keys@.len() as int, e@);
        if first_str(iv, keys@.len() as int, e@) is Some {
            let jj = first_str(iv, keys@.len() as int, e@)->0;
            assert(str_bytes(iv[jj].1.1) != e@);
        }
    }
    None
}

/// Adds item `k` of a run to the string section.
fn str_step(
    p: &Parameter,
    strs: &mut Vec<u8>,
    offs: &mut Vec<u64>,
    keys: &mut Vec<Vec<u8>>,
    Ghost(iv): Ghost<Seq<Item>>,
    Ghost(k): Ghost<int>,
)
    requires
        0 <= k < iv.len(),
        iv[k].1 == param_view(*p),
        is_str_type(param_view(*p).0),
        str_run(iv, k + 1).0.len() <= u32::MAX,
        old(strs)@ == str_run(iv, k).0,
        offs_view(old(offs)@) == str_run(iv, k).1,
        old(keys)@.len() == k,
        strs_match(old(keys)@, iv),
    ensures
        final(strs)@ == str_run(iv, k + 1).0,
        offs_view(final(offs)@) == str_run(iv, k + 1).1,
        final(keys)@.len() == k + 1,
        strs_match(final(keys)@, iv),
{
    proof {
        lemma_str_run_prefix(iv, k, k + 1);
        lemma_first_str(iv, k, str_bytes(iv[k].1.1));
    }
    let b = param_str_bytes(p);
    match find_str(keys, b, Ghost(iv)) {
        Some(j) => {
            proof {
                lemma_str_run_offs(iv, k);
            }
            let ghost prev = offs@;
            let o = offs[j];
            offs.push(o);
            assert(offs_view(offs@) =~= offs_view(prev).push(o as int));
            assert(offs_view(offs@) =~= str_run(iv, k + 1).1);
        },
        None => {
            let ghost prev = offs@;
            let o: u64 = strs.len() as u64;
            offs.push(o);
            assert(offs_view(offs@) =~= offs_view(prev).push(o as int));
            assert(offs_view(offs@) =~= str_run(iv, k + 1).1);
            let ghost before = strs@;
            push_bytes(strs, b);
            strs.push(0);
            assert(strs@ =~= before + b@.push(0u8));
            push_pad(strs, b.len() + 1);
        },
    }
    let mut kept: Vec<u8> = Vec::new();
    push_bytes(&mut kept, b);
    keys.push(kept);
    assert(strs@ =~= str_run(iv, k + 1).0);
}

/// Writes the string section for the queued string parameters; returns it
/// and where each parameter's string starts in it.
fn write_strings(items: &Vec<(u64, &Parameter)>) -> (r: (Vec<u8>, Vec<u64>))
    requires
        forall|i: int| 0 <= i < items@.len() ==> is_str_type(#[trigger] param_view(*items@[i].1).0),
        str_run(items_view(items@), items@.len() as int).0.len() <= u32::MAX,
    ensures
        r.0@ == str_run(items_view(items@), items@.len() as int).0,
        offs_view(r.1@) == str_run(items_view(items@), items@.len() as int).1,
{
    let ghost iv = items_view(items@);
    let n = items.len();
    let mut strs: Vec<u8> = Vec::new();
    let mut offs: Vec<u64> = Vec::new();
    let mut keys: Vec<Vec<u8>> = Vec::new();
    assert(offs_view(offs@) =~= str_run(iv, 0).1);
    let mut k: usize = 0;
    while k < n
        invariant
            k <= n,
            n == items@.len(),
            iv == items_view(items@),
            forall|i: int| 0 <= i < items@.len() ==> is_str_type(#[trigger] param_view(*items@[i].1).0),
            str_run(iv, n as int).0.len() <= u32::MAX,
            strs@ == str_run(iv, k as int).0,
            offs_view(offs@) == str_run(iv, k as int).1,
            keys@.len() == k,
            strs_match(keys@, iv),
        decreases n - k,
    {
        proof {
            lemma_str_run_prefix(iv, k + 1, n as int);
        }
        let p = items[k].1;
        assert(iv[k as int].1 == param_view(*p));
        str_step(p, &mut strs, &mut offs, &mut keys, Ghost(iv), Ghost(k as int));
        k += 1;
    }
    (strs, offs)
}

pub(crate) proof fn lemma_child_recs_len(l: ListV, s: int, o: int, i: int, nlt: int)
    requires
        0 <= i <= l.lists.len(),
    ensures
        child_recs(l, s, o, i, nlt).len() == 12 * (l.lists.len() - i),
    decreases l.lists.len() - i,
{
    if i < l.lists.len() {
        lemma_child_recs_len(l, s, o, i + 1, nlt);
    }
}

/// The list records below `l` take twelve bytes each.
pub(crate) proof fn lemma_desc_len(l: ListV, s: int, o: int, nlt: int)
    ensures
        desc_recs(l, s, o, nlt).len() == 12 * (nl(l) - 1),
    decreases l, 1nat, 0int,
{
    lemma_child_recs_len(l, s, o, 0, nlt);
    lemma_desc_from_len(l, s, o, 0, nlt);
    lemma_sums_mono(l, 0, l.lists.len() as int);
}

pub(crate) proof fn lemma_desc_from_len(l: ListV, s: int, o: int, i: int, nlt: int)
    requires
        0 <= i <= l.lists.len(),
    ensures
        desc_from(l, s, o, i, nlt).len() == 12 * (nl_sum(l, l.lists.len() as int) - nl_sum(l, i) - (
        l.lists.len() - i)),
    decreases l, 0nat, l.lists.len() - i,
{
    if i < l.lists.len() {
        lemma_desc_len(l.lists[i].1, child_start(l, s, i), child_objs(l, o, i), nlt);
        lemma_desc_from_len(l, s, o, i + 1, nlt);
        lemma_sums_mono(l, i + 1, l.lists.len() as int);
    }
}

pub(crate) proof fn lemma_obj_recs_len(l: ListV, o: int, p: int, m: int, not: int)
    requires
        0 <= m <= l.objects.len(),
    ensures
        obj_recs(l, o, p, m, not).len() == 8 * (l.objects.len() - m),
    decreases l.objects.len() - m,
{
    if m < l.objects.len() {
        lemma_obj_recs_len(l, o, p, m + 1, not);
    }
}

/// The object records of a subtree take eight bytes each.
pub(crate) proof fn lemma_objs_len(l: ListV, o: int, p: int, not: int)
    ensures
        objs_region(l, o, p, not).len() == 8 * no(l),
    decreases l, 1nat, 0int,
{
    lemma_obj_recs_len(l, o, p, 0, not);
    lemma_objs_from_len(l, o, p, 0, not);
}

pub(crate) proof fn lemma_objs_from_len(l: ListV, o: int, p: int, i: int, not: int)
    requires
        0 <= i <= l.lists.len(),
    ensures
        objs_from(l, o, p, i, not).len() == 8 * (no_sum(l, l.lists.len() as int) - no_sum(l, i)),
    decreases l, 0nat, l.lists.len() - i,
{
    if i < l.lists.len() {
        lemma_objs_len(l.lists[i].1, child_objs(l, o, i), p + np_sum(l, i), not);
        lemma_objs_from_len(l, o, p, i + 1, not);
    }
}

proof fn lemma_obj_param_recs_len(obj: ObjV, q: int)
    requires
        0 <= q <= obj.len(),
    ensures
        obj_param_recs(obj, q).len() == 8 * (obj.len() - q),
    decreases obj.len() - q,
{
    if q < obj.len() {
        lemma_obj_param_recs_len(obj, q + 1);
    }
}

proof fn lemma_own_param_recs_len(l: ListV, m: int)
    requires
        0 <= m <= l.objects.len(),
    ensures
        own_param_recs(l, m).len() == 8 * (op_sum(l, l.objects.len() as int) - op_sum(l, m)),
    decreases l.objects.len() - m,
{
    if m < l.objects.len() {
        lemma_obj_param_recs_len(l.objects[m].1, 0);
        lemma_own_param_recs_len(l, m + 1);
        lemma_op_mono(l, m + 1, l.objects.len() as int);
    }
}

/// The parameter records of a subtree take eight bytes each.
pub(crate) proof fn lemma_params_len(l: ListV)
    ensures
        params_region(l).len() == 8 * np(l),
    decreases l, 1nat, 0int,
{
    lemma_params_from_len(l, 0);
    lemma_own_param_recs_len(l, 0);
}

proof fn lemma_params_from_len(l: ListV, i: int)
    requires
        0 <= i <= l.lists.len(),
    ensures
        params_from(l, i).len() == 8 * (np_sum(l, l.lists.len() as int) - np_sum(l, i)),
    decreases l, 0nat, l.lists.len() - i,
{
    if i < l.lists.len() {
        lemma_params_len(l.lists[i].1);
        lemma_params_from_len(l, i + 1);
    }
}

pub(crate) proof fn lemma_data_patches_len(b: Seq<u8>, items: Seq<Item>, offs: Seq<int>, n: int, npt: int)
    ensures
        data_patches(b, items, offs, n, npt).len() == b.len(),
    decreases n,
{
    if 0 < n <= items.len() {
        lemma_data_patches_len(b, items, offs, n - 1, npt);
    }
}

pub(crate) proof fn lemma_str_patches_len(
    b: Seq<u8>,
    items: Seq<Item>,
    offs: Seq<int>,
    n: int,
    npt: int,
    dlen: int,
)
    ensures
        str_patches(b, items, offs, n, npt, dlen).len() == b.len(),
    decreases n,
{
    if 0 < n <= items.len() {
        lemma_str_patches_len(b, items, offs, n - 1, npt, dlen);
    }
}

/// The body holds the records and both sections.
pub(crate) proof fn lemma_body_len(root: ListV)
    ensures
        aamp_body(root).len() == 12 * nl(root) + 8 * no(root) + 8 * np(root) + data_section(root).len()
            + string_section(root).len(),
{
    let npt = np(root) as int;
    let q = collect(root, true, 0);
    let d = data_run(q.0, q.0.len() as int);
    let st = str_run(q.1, q.1.len() as int);
    lemma_desc_len(root, 1, 0, nl(root) as int);
    lemma_objs_len(root, 0, 0, no(root) as int);
    lemma_params_len(root);
    lemma_data_patches_len(params_region(root), q.0, d.1, q.0.len() as int, npt);
    lemma_str_patches_len(
        data_patches(params_region(root), q.0, d.1, q.0.len() as int, npt),
        q.1,
        st.1,
        q.1.len() as int,
        npt,
        d.0.len() as int,
    );
    reveal(patched_params);
    reveal(aamp_body);
}

/// Sets the 24-bit data offset of record `r` to `v`, if the record is
/// there.
fn set_offset(b: &mut Vec<u8>, r: u64, v: u64)
    ensures
        final(b)@ == patch24(old(b)@, r as int, v as int),
{
    if r < (b.len() as u64) / 8 {
        let at = (8 * r) as usize;
        b.set(at + 4, (v % 256) as u8);
        b.set(at + 5, ((v / 256) % 256) as u8);
        b.set(at + 6, ((v / 65536) % 256) as u8);
    }
}

/// Sets the data offsets of the queued parameters.
fn patch_data(b: &mut Vec<u8>, items: &Vec<(u64, &Parameter)>, offs: &Vec<u64>, npt: u64)
    requires
        offs@.len() == items@.len(),
        forall|j: int| 0 <= j < offs@.len() ==> #[trigger] offs@[j] <= u32::MAX + 4,
        npt <= u32::MAX,
        old(b)@.len() == 8 * npt,
    ensures
        final(b)@ == data_patches(old(b)@, items_view(items@), offs_view(offs@), items@.len() as int, npt as int),
{
    let ghost start = b@;
    let mut k: usize = 0;
    while k < items.len()
        invariant
            k <= items@.len(),
            offs@.len() == items@.len(),
            forall|j: int| 0 <= j < offs@.len() ==> #[trigger] offs@[j] <= u32::MAX + 4,
            npt <= u32::MAX,
            start.len() == 8 * npt,
            b@ == data_patches(start, items_view(items@), offs_view(offs@), k as int, npt as int),
        decreases items@.len() - k,
    {
        let r = items[k].0;
        let ghost prev = b@;
        proof {
            lemma_data_patches_len(start, items_view(items@), offs_view(offs@), k as int, npt as int);
        }
        if r < npt {
            let v = 2 * (npt - r) + offs[k] / 4;
            set_offset(b, r, v);
        } else {
            assert(8 * r + 8 > prev.len()) by {
                lemma_data_patches_len(start, items_view(items@), offs_view(offs@), k as int, npt as int);
            }
        }
        k += 1;
    }
}

/// Sets the string offsets of the queued string parameters; the string
/// section follows `dlen` bytes of data.
fn patch_strings(b: &mut Vec<u8>, items: &Vec<(u64, &Parameter)>, offs: &Vec<u64>, npt: u64, dlen: u64)
    requires
        offs@.len() == items@.len(),
        forall|j: int| 0 <= j < offs@.len() ==> #[trigger] offs@[j] <= u32::MAX,
        npt <= u32::MAX,
        dlen <= u32::MAX,
        old(b)@.len() == 8 * npt,
    ensures
        final(b)@ == str_patches(
            old(b)@,
            items_view(items@),
            offs_view(offs@),
            items@.len() as int,
            npt as int,
            dlen as int,
        ),
{
    let ghost start = b@;
    let mut k: usize = 0;
    while k < items.len()
        invariant
            k <= items@.len(),
            offs@.len() == items@.len(),
            forall|j: int| 0 <= j < offs@.len() ==> #[trigger] offs@[j] <= u32::MAX,
            npt <= u32::MAX,
            dlen <= u32::MAX,
            start.len() == 8 * npt,
            b@ == str_patches(start, items_view(items@), offs_view(offs@), k as int, npt as int, dlen as int),
        decreases items@.len() - k,
    {
        let r = items[k].0;
        proof {
            lemma_str_patches_len(start, items_view(items@), offs_view(offs@), k as int, npt as int, dlen as int);
        }
        if r < npt {
            let v = (8 * (npt - r) + dlen + offs[k]) / 4;
            set_offset(b, r, v);
        }
        k += 1;
    }
}

/// The counts, the parameter records, the data section and the string
/// section of an archive.
fn write_sections(root: &ParameterList) -> (r: (u64, u64, u64, Vec<u8>, Vec<u8>, Vec<u8>))
    requires
        aamp_body(list_view(*root)).len() <= u32::MAX,
    ensures
        r.0 == nl(list_view(*root)),
        r.1 == no(list_view(*root)),
        r.2 == np(list_view(*root)),
        r.3@ == patched_params(list_view(*root)),
        r.4@ == data_section(list_view(*root)),
        r.5@ == string_section(list_view(*root)),
{
    let ghost v = list_view(*root);
    let ghost q = collect(v, true, 0);
    proof {
        lemma_body_len(v);
        reveal(data_section);
        reveal(string_section);
    }
    let counts = tree_counts(root);
    let npt = counts.2;
    let ai = super::Name::from_str("DemoAIActionIdx").hash();
    let mut dq: Vec<(u64, &Parameter)> = Vec::new();
    let mut sq: Vec<(u64, &Parameter)> = Vec::new();
    assert(queues_view(dq@, sq@).0 =~= Seq::<Item>::empty());
    assert(queues_view(dq@, sq@).1 =~= Seq::<Item>::empty());
    collect_params(root, true, 0, ai, &mut dq, &mut sq);
    assert(items_view(dq@) =~= q.0);
    assert(items_view(sq@) =~= q.1);
    let (data, doffs) = write_data(&dq);
    let (strs, soffs) = write_strings(&sq);
    proof {
        lemma_data_run_offs(q.0, q.0.len() as int);
        lemma_str_run_offs(q.1, q.1.len() as int);
        assert forall|j: int| 0 <= j < doffs@.len() implies #[trigger] doffs@[j] <= u32::MAX + 4 by {
            assert(offs_view(doffs@)[j] == doffs@[j] as int);
        }
        assert forall|j: int| 0 <= j < soffs@.len() implies #[trigger] soffs@[j] <= u32::MAX by {
            assert(offs_view(soffs@)[j] == soffs@[j] as int);
        }
        lemma_params_len(v);
    }
    let mut params: Vec<u8> = Vec::new();
    write_params(root, &mut params);
    patch_data(&mut params, &dq, &doffs, npt);
    proof {
        lemma_data_patches_len(params_region(v), q.0, offs_view(doffs@), q.0.len() as int, npt as int);
    }
    patch_strings(&mut params, &sq, &soffs, npt, data.len() as u64);
    proof {
        reveal(patched_params);
        reveal(data_section);
        reveal(string_section);
    }
    (counts.0, counts.1, npt, params, data, strs)
}

/// Appends the archive header.
fn push_header(
    out: &mut Vec<u8>,
    size: u64,
    version: u32,
    dtl: u64,
    nlt: u64,
    not: u64,
    npt: u64,
    dlen: u64,
    slen: u64,
)
    requires
        size <= u32::MAX,
        dtl <= u32::MAX,
        nlt <= u32::MAX,
        not <= u32::MAX,
        npt <= u32::MAX,
        dlen <= u32::MAX,
        slen <= u32::MAX,
    ensures
        final(out)@ == old(out)@ + aamp_header(
            size as int,
            version,
            dtl as int,
            nlt as int,
            not as int,
            npt as int,
            dlen as int,
            slen as int,
        ),
{
    let ghost start = out@;
    out.push(0x41);
    out.push(0x41);
    out.push(0x4D);
    out.push(0x50);
    push_u32(out, 2, Endian::Little);
    push_u32(out, 3, Endian::Little);
    push_u32(out, size as u32, Endian::Little);
    push_u32(out, version, Endian::Little);
    push_u32(out, dtl as u32, Endian::Little);
    push_u32(out, nlt as u32, Endian::Little);
    push_u32(out, not as u32, Endian::Little);
    push_u32(out, npt as u32, Endian::Little);
    push_u32(out, dlen as u32, Endian::Little);
    push_u32(out, slen as u32, Endian::Little);
    push_u32(out, 0, Endian::Little);
    assert(out@ =~= start + aamp_header(
        size as int,
        version,
        dtl as int,
        nlt as int,
        not as int,
        npt as int,
        dlen as int,
        slen as int,
    ));
}

/// Appends the list and object records of an archive.
fn push_records(root: &ParameterList, nlt: u64, not: u64, out: &mut Vec<u8>)
    requires
        nl(list_view(*root)) + no(list_view(*root)) + np(list_view(*root)) <= u32::MAX,
        nlt == nl(list_view(*root)),
        not == no(list_view(*root)),
    ensures
        final(out)@ == old(out)@ + lists_region(list_view(*root)) + objs_region(
            list_view(*root),
            0,
            0,
            not as int,
        ),
{
    let ghost start = out@;
    push_list_rec(out, super::binary::ROOT_KEY_HASH, root, 0, 1, 0, nlt);
    write_desc(root, 1, 0, nlt, out);
    write_objs(root, 0, 0, not, out);
    assert(out@ =~= start + lists_region(list_view(*root)) + objs_region(
        list_view(*root),
        0,
        0,
        not as int,
    ));
}

/// Appends the data type string with its NUL, padded.
fn push_dtype(out: &mut Vec<u8>, dt: &[u8]) -> (dtl: u64)
    requires
        dt@.len() + 4 <= u32::MAX,
    ensures
        dtl == dtype_len(dt@),
        final(out)@ == old(out)@ + dt@ + Seq::new((dtl - dt@.len()) as nat, |i: int| 0u8),
{
    let dtl: u64 = dt.len() as u64 + 1 + (4 - (dt.len() as u64 + 1) % 4) % 4;
    let ghost h = out@;
    push_bytes(out, dt);
    let mut z: u64 = dt.len() as u64;
    while z < dtl
        invariant
            dt.len() <= z <= dtl,
            out@ == h + dt@ + Seq::new((z - dt.len()) as nat, |i: int| 0u8),
        decreases dtl - z,
    {
        out.push(0);
        z += 1;
        assert(out@ =~= h + dt@ + Seq::new((z - dt.len()) as nat, |i: int| 0u8));
    }
    dtl
}

/// The size of an archive.
proof fn lemma_aamp_len(version: u32, dtype: Seq<char>, root: ListV)
    ensures
        aamp_bytes(version, dtype, root).len() == 0x30 + dtype_len(vstd::utf8::encode_utf8(dtype))
            + 12 * nl(root) + 8 * no(root) + 8 * np(root) + data_section(root).len()
            + string_section(root).len(),
{
    reveal(aamp_bytes);
    lemma_body_len(root);
}

impl ParameterIO {
    /// Serializes the parameter IO to binary.
    pub fn to_binary(&self) -> (r: Vec<u8>)
        requires
            aamp_bytes(self.version, self.data_type@, list_view(self.param_root)).len() <= u32::MAX,
        ensures
            r@ == aamp_bytes(self.version, self.data_type@, list_view(self.param_root)),
    {
        let root = &self.param_root;
        let ghost v = list_view(*root);
        proof {
            lemma_aamp_len(self.version, self.data_type@, v);
            lemma_body_len(v);
        }
        let (nlt, not, npt, params, data, strs) = write_sections(root);
        let dt = self.data_type.as_str().as_bytes();
        let dtl: u64 = dt.len() as u64 + 1 + (4 - (dt.len() as u64 + 1) % 4) % 4;
        let size: u64 = 0x30 + dtl + 12 * nlt + 8 * not + 8 * npt + data.len() as u64
            + strs.len() as u64;
        let mut out: Vec<u8> = Vec::new();
        push_header(
            &mut out,
            size,
            self.version,
            dtl,
            nlt,
            not,
            npt,
            data.len() as u64,
            strs.len() as u64,
        );
        push_dtype(&mut out, dt);
        let ghost head = out@;
        push_records(root, nlt, not, &mut out);
        push_bytes(&mut out, params.as_slice());
        push_bytes(&mut out, data.as_slice());
        push_bytes(&mut out, strs.as_slice());
        assert(out@ =~= head + aamp_body(v)) by {
            reveal(aamp_body);
        }
        assert(out@ =~= aamp_bytes(self.version, self.data_type@, v)) by {
            reveal(aamp_bytes);
        }
        out
    }
}

} // verus!
