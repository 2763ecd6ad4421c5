//! Reading back the lists and objects of a written parameter archive.
use vstd::prelude::*;
use super::binary::{
    aamp_read_fuel, half, lists_from, map_insert, null_string, objects_from, params_from,
    spec_aamp_read, spec_archive, spec_list, spec_object, spec_param, str_chars, word, Outcome,
    ROOT_KEY_HASH,
};
use super::param::ListV;
use super::queue::{lemma_pseq, pseq};
use super::roundtrip::{lemma_null_string, lemma_read_param, no_nul, param_ok, sections_at};
use super::writer::{
    aamp_body, aamp_bytes, aamp_header, child_objs, child_recs, child_start, collect, data_patches,
    data_run, data_section, desc_from, desc_recs, dtype_len, lemma_child_recs_len,
    lemma_data_patches_len, lemma_desc_len, lemma_obj_recs_len, lemma_objs_len, lemma_op_mono,
    lemma_params_len, lemma_str_patches_len, lemma_sums_mono, list_rec, lists_region, nl, no, np,
    np_sum, nl_sum, obj_rec, obj_recs, objs_from, objs_region, op_sum, own_params, params_region,
    patched_params, str_run, string_section, u16f, u32f, ObjV,
};
use crate::Endian;
use crate::Result;
use crate::yaz0::spec_payload;
use super::binary::{pio_view, spec_from_binary_result};
use super::param::{list_view, ParameterIO};
use crate::util::{lemma_u16_roundtrip, lemma_u32_roundtrip};

verus! {

/// `b` stands at `pos` in `d`.
pub open spec fn at(d: Seq<u8>, pos: int, b: Seq<u8>) -> bool {
    0 <= pos && pos + b.len() <= d.len() && d.subrange(pos, pos + b.len()) == b
}

proof fn lemma_at_split(d: Seq<u8>, pos: int, a: Seq<u8>, b: Seq<u8>)
    requires
        at(d, pos, a + b),
    ensures
        at(d, pos, a),
        at(d, pos + a.len(), b),
{
    assert(d.subrange(pos, pos + a.len()) =~= (a + b).subrange(0, a.len() as int));
    assert((a + b).subrange(0, a.len() as int) =~= a);
    assert(d.subrange(pos + a.len(), pos + a.len() + b.len()) =~= (a + b).subrange(
        a.len() as int,
        (a.len() + b.len()) as int,
    ));
    assert((a + b).subrange(a.len() as int, (a.len() + b.len()) as int) =~= b);
}

/// No key occurs twice.
pub open spec fn keys_distinct<V>(s: Seq<(u32, V)>) -> bool {
    forall|i: int, j: int| 0 <= i < j < s.len() ==> s[i].0 != s[j].0
}

/// No two lists, objects or parameters of one parent share a name, in the
/// whole subtree.
pub open spec fn names_unique(l: ListV) -> bool
    decreases l, 1nat, 0int,
{
    &&& keys_distinct(l.lists)
    &&& keys_distinct(l.objects)
    &&& forall|m: int| 0 <= m < l.objects.len() ==> keys_distinct(#[trigger] l.objects[m].1)
    &&& names_unique_from(l, 0)
}

/// The subtrees of the children of `l` from child `i` on have unique names.
pub open spec fn names_unique_from(l: ListV, i: int) -> bool
    decreases l, 0nat, l.lists.len() - i,
{
    if i < 0 || i >= l.lists.len() {
        true
    } else {
        names_unique(l.lists[i].1) && names_unique_from(l, i + 1)
    }
}

/// The depth of nesting below `l`.
pub open spec fn depth(l: ListV) -> nat
    decreases l, 1nat, 0int,
{
    depth_from(l, 0)
}

/// The depth of nesting below the children of `l` from child `i` on, plus
/// one.
pub open spec fn depth_from(l: ListV, i: int) -> nat
    decreases l, 0nat, l.lists.len() - i,
{
    if i < 0 || i >= l.lists.len() {
        0
    } else {
        let a = 1 + depth(l.lists[i].1);
        let b = depth_from(l, i + 1);
        if a >= b {
            a
        } else {
            b
        }
    }
}

/// A list nests less deeply than the number of lists in its tree.
proof fn lemma_depth_lt_nl(l: ListV)
    ensures
        depth(l) < nl(l),
    decreases l, 1nat, 0int,
{
    lemma_depth_from_le(l, 0);
}

proof fn lemma_depth_from_le(l: ListV, i: int)
    requires
        0 <= i,
    ensures
        depth_from(l, i) <= nl_sum(l, l.lists.len() as int),
    decreases l, 0nat, l.lists.len() - i,
{
    if i < l.lists.len() {
        lemma_depth_from_le(l, i + 1);
        assert(l.lists.contains(l.lists[i]));
        lemma_depth_lt_nl(l.lists[i].1);
        lemma_sums_mono(l, i + 1, l.lists.len() as int);
    }
}

proof fn lemma_unique_child(l: ListV, i: int, j: int)
    requires
        0 <= j <= i < l.lists.len(),
        names_unique_from(l, j),
    ensures
        names_unique(l.lists[i].1),
        names_unique_from(l, i + 1),
        depth_from(l, j) >= 1 + depth(l.lists[i].1),
    decreases i - j,
{
    if j < i {
        lemma_unique_child(l, i, j + 1);
    }
}

proof fn lemma_depth_child(l: ListV, i: int, j: int)
    requires
        0 <= j <= i < l.lists.len(),
    ensures
        depth_from(l, j) >= 1 + depth(l.lists[i].1),
    decreases i - j,
{
    if j < i {
        lemma_depth_child(l, i, j + 1);
    }
}

/// Adding an entry whose key is new puts it last.
proof fn lemma_insert_new<V>(s: Seq<(u32, V)>, i: int)
    requires
        0 <= i < s.len(),
        keys_distinct(s),
    ensures
        map_insert(s.take(i), s[i].0, s[i].1) == s.take(i + 1),
{
    assert(!exists|j: int| 0 <= j < s.take(i).len() && s.take(i)[j].0 == s[i].0);
    assert(s.take(i).push((s[i].0, s[i].1)) =~= s.take(i + 1));
}

/// A 16-bit field reads back its value.
proof fn lemma_half_at(d: Seq<u8>, off: int, x: int)
    requires
        0 <= x < 0x10000,
        at(d, off, u16f(x)),
    ensures
        half(d, off) == x,
{
    lemma_u16_roundtrip(x as u16, Endian::Little);
    assert(d[off] == u16f(x)[0]);
    assert(d[off + 1] == u16f(x)[1]);
}

/// A 32-bit field reads back its value.
proof fn lemma_word_at32(d: Seq<u8>, off: int, x: u32)
    requires
        at(d, off, u32f(x)),
    ensures
        word(d, off) == x,
{
    lemma_u32_roundtrip(x, Endian::Little);
    assert(d[off] == u32f(x)[0]);
    assert(d[off + 1] == u32f(x)[1]);
    assert(d[off + 2] == u32f(x)[2]);
    assert(d[off + 3] == u32f(x)[3]);
}

/// The parameters of an object read back, given that each record reads
/// back as its parameter.
proof fn lemma_read_obj_params(d: Seq<u8>, q0: int, base: int, obj: ObjV, i: int)
    requires
        0 <= i <= obj.len(),
        keys_distinct(obj),
        0 <= q0,
        q0 + 8 * (base + obj.len()) <= u32::MAX,
        0 <= base,
        forall|q: int| 0 <= q < obj.len() ==> spec_param(d, q0 + 8 * (base + q)) == Outcome::Value(
            #[trigger] obj[q],
        ),
    ensures
        params_from(d, q0 + 8 * base, obj.len() as int, i, obj.take(i)) == Outcome::Value(obj),
    decreases obj.len() - i,
{
    if i < obj.len() {
        assert(spec_param(d, q0 + 8 * (base + i)) == Outcome::Value(obj[i]));
        assert(q0 + 8 * base + 8 * i == q0 + 8 * (base + i));
        lemma_insert_new(obj, i);
        lemma_read_obj_params(d, q0, base, obj, i + 1);
    } else {
        assert(obj.take(i) =~= obj);
    }
}

/// The subtree of `l`, whose parameters start at record `p`, has its
/// parameter records in place.
pub open spec fn params_in_place(d: Seq<u8>, q0: int, l: ListV, p: int) -> bool {
    forall|j: int| 0 <= j < np(l) ==> spec_param(d, q0 + 8 * (p + j)) == Outcome::Value(
        #[trigger] pseq(l)[j],
    )
}

/// Object `m` of `l` reads back.
#[verifier::spinoff_prover]
proof fn lemma_read_object(d: Seq<u8>, o0: int, not: int, npt: int, l: ListV, o: int, p: int, m: int)
    requires
        0 <= o0,
        0 <= o,
        0 <= p,
        0 <= m < l.objects.len(),
        o + l.objects.len() <= not,
        p + np(l) <= npt,
        2 * (not + npt) < 0x10000,
        o0 + 8 * not + 8 * npt <= u32::MAX,
        keys_distinct(l.objects[m].1),
        at(
            d,
            o0 + 8 * (o + m),
            obj_rec(
                l.objects[m].0,
                l.objects[m].1.len() as int,
                o + m,
                own_params(l, p) + op_sum(l, m),
                not,
            ),
        ),
        params_in_place(d, o0 + 8 * not, l, p),
    ensures
        spec_object(d, o0 + 8 * (o + m)) == Outcome::Value(l.objects[m]),
{
    let obj = l.objects[m].1;
    let pm = own_params(l, p) + op_sum(l, m);
    let off = o0 + 8 * (o + m);
    let q0 = o0 + 8 * not;
    lemma_pseq(l);
    lemma_op_mono(l, m + 1, l.objects.len() as int);
    lemma_sums_mono(l, 0, l.lists.len() as int);
    let rec = obj_rec(l.objects[m].0, obj.len() as int, o + m, pm, not);
    lemma_at_split(d, off, u32f(l.objects[m].0) + u16f(2 * (not - (o + m) + pm)), u16f(obj.len() as int));
    lemma_at_split(d, off, u32f(l.objects[m].0), u16f(2 * (not - (o + m) + pm)));
    lemma_word_at32(d, off, l.objects[m].0);
    lemma_half_at(d, off + 4, 2 * (not - (o + m) + pm));
    lemma_half_at(d, off + 6, obj.len() as int);
    assert(half(d, off + 4) * 4 + off == q0 + 8 * pm);
    assert forall|q: int| 0 <= q < obj.len() implies spec_param(d, q0 + 8 * (pm + q)) == Outcome::Value(
        #[trigger] obj[q],
    ) by {
        let j = np_sum(l, l.lists.len() as int) + op_sum(l, m) + q;
        assert(pseq(l)[j] == obj[q]);
        assert(spec_param(d, q0 + 8 * (p + j)) == Outcome::Value(pseq(l)[j]));
        assert(p + j == pm + q);
    }
    lemma_read_obj_params(d, q0, pm, obj, 0);
    assert(obj.take(0) =~= Seq::<(u32, (u8, super::param::PVal))>::empty());
}

/// The objects of `l` from object `i` on read back.
proof fn lemma_read_objects(d: Seq<u8>, o0: int, not: int, npt: int, l: ListV, o: int, p: int, i: int)
    requires
        0 <= o0,
        0 <= o,
        0 <= p,
        0 <= i <= l.objects.len(),
        o + l.objects.len() <= not,
        p + np(l) <= npt,
        2 * (not + npt) < 0x10000,
        o0 + 8 * not + 8 * npt <= u32::MAX,
        keys_distinct(l.objects),
        forall|m: int| 0 <= m < l.objects.len() ==> keys_distinct(#[trigger] l.objects[m].1),
        at(d, o0 + 8 * (o + i), obj_recs(l, o, p, i, not)),
        params_in_place(d, o0 + 8 * not, l, p),
    ensures
        objects_from(d, o0 + 8 * o, l.objects.len() as int, i, l.objects.take(i)) == Outcome::Value(
            l.objects,
        ),
    decreases l.objects.len() - i,
{
    if i < l.objects.len() {
        let pm = own_params(l, p) + op_sum(l, i);
        let rec = obj_rec(l.objects[i].0, l.objects[i].1.len() as int, o + i, pm, not);
        lemma_at_split(d, o0 + 8 * (o + i), rec, obj_recs(l, o, p, i + 1, not));
        lemma_read_object(d, o0, not, npt, l, o, p, i);
        assert(o0 + 8 * o + 8 * i == o0 + 8 * (o + i));
        lemma_insert_new(l.objects, i);
        assert(o0 + 8 * (o + i) + rec.len() == o0 + 8 * (o + (i + 1)));
        lemma_read_objects(d, o0, not, npt, l, o, p, i + 1);
    } else {
        assert(l.objects.take(i) =~= l.objects);
    }
}

/// Where the list records start, how many there are of lists, objects and
/// parameters, and that every offset and 16-bit field fits.
pub open spec fn layout_fits(d: Seq<u8>, p0: int, nlt: int, not: int, npt: int) -> bool {
    &&& 0 <= p0
    &&& 0 <= nlt
    &&& 0 <= not
    &&& 0 <= npt
    &&& 3 * nlt + 2 * not + 2 * npt < 0x10000
    &&& p0 + 12 * nlt + 8 * not + 8 * npt <= u32::MAX
}

/// The records of `l` and of its subtree stand in place.
pub open spec fn list_in_place(
    d: Seq<u8>,
    p0: int,
    nlt: int,
    not: int,
    npt: int,
    l: ListV,
    name: u32,
    g: int,
    s: int,
    o: int,
    p: int,
) -> bool {
    &&& 0 <= g < nlt
    &&& g <= s
    &&& s + nl(l) - 1 <= nlt
    &&& 0 <= o
    &&& o + no(l) <= not
    &&& 0 <= p
    &&& p + np(l) <= npt
    &&& at(d, p0 + 12 * g, list_rec(name, l, g, s, o, nlt))
    &&& at(d, p0 + 12 * s, desc_recs(l, s, o, nlt))
    &&& at(d, p0 + 12 * nlt + 8 * o, objs_region(l, o, p, not))
    &&& params_in_place(d, p0 + 12 * nlt + 8 * not, l, p)
}

/// A list record, with everything below it in place, reads back as the
/// list.
#[verifier::spinoff_prover]
#[verifier::rlimit(40)]
proof fn lemma_read_list(
    d: Seq<u8>,
    p0: int,
    nlt: int,
    not: int,
    npt: int,
    l: ListV,
    name: u32,
    g: int,
    s: int,
    o: int,
    p: int,
    fuel: nat,
)
    requires
        layout_fits(d, p0, nlt, not, npt),
        list_in_place(d, p0, nlt, not, npt, l, name, g, s, o, p),
        names_unique(l),
        fuel >= depth(l),
    ensures
        spec_list(d, p0 + 12 * g, fuel) == Outcome::Value((name, l)),
    decreases l, 1nat, 0int,
{
    let off = p0 + 12 * g;
    let o0 = p0 + 12 * nlt;
    let k = l.lists.len() as int;
    let nob = l.objects.len() as int;
    lemma_sums_mono(l, 0, k);
    lemma_at_split(
        d,
        off,
        u32f(name) + u16f(3 * (s - g)) + u16f(k) + u16f(3 * (nlt - g) + 2 * o),
        u16f(nob),
    );
    lemma_at_split(d, off, u32f(name) + u16f(3 * (s - g)) + u16f(k), u16f(3 * (nlt - g) + 2 * o));
    lemma_at_split(d, off, u32f(name) + u16f(3 * (s - g)), u16f(k));
    lemma_at_split(d, off, u32f(name), u16f(3 * (s - g)));
    lemma_word_at32(d, off, name);
    lemma_half_at(d, off + 4, 3 * (s - g));
    lemma_half_at(d, off + 6, k);
    lemma_half_at(d, off + 8, 3 * (nlt - g) + 2 * o);
    lemma_half_at(d, off + 10, nob);
    assert(half(d, off + 4) * 4 + off == p0 + 12 * s);
    assert(half(d, off + 8) * 4 + off == o0 + 8 * o);
    lemma_child_recs_len(l, s, o, 0, nlt);
    lemma_at_split(d, p0 + 12 * s, child_recs(l, s, o, 0, nlt), desc_from(l, s, o, 0, nlt));
    lemma_obj_recs_len(l, o, p, 0, not);
    lemma_at_split(d, o0 + 8 * o, obj_recs(l, o, p, 0, not), objs_from(l, o, p, 0, not));
    lemma_read_children(d, p0, nlt, not, npt, l, s, o, p, 0, fuel);
    assert(l.lists.take(0) =~= Seq::<(u32, ListV)>::empty());
    lemma_read_objects(d, o0, not, npt, l, o, p, 0);
    assert(l.objects.take(0) =~= Seq::<(u32, ObjV)>::empty());
}

/// The children of `l` from child `i` on read back.
#[verifier::spinoff_prover]
#[verifier::rlimit(60)]
proof fn lemma_read_children(
    d: Seq<u8>,
    p0: int,
    nlt: int,
    not: int,
    npt: int,
    l: ListV,
    s: int,
    o: int,
    p: int,
    i: int,
    fuel: nat,
)
    requires
        layout_fits(d, p0, nlt, not, npt),
        0 <= i <= l.lists.len(),
        0 <= s,
        s + nl(l) - 1 <= nlt,
        0 <= o,
        o + no(l) <= not,
        0 <= p,
        p + np(l) <= npt,
        at(d, p0 + 12 * (s + i), child_recs(l, s, o, i, nlt)),
        at(d, p0 + 12 * child_start(l, s, i), desc_from(l, s, o, i, nlt)),
        at(d, p0 + 12 * nlt + 8 * child_objs(l, o, i), objs_from(l, o, p, i, not)),
        params_in_place(d, p0 + 12 * nlt + 8 * not, l, p),
        keys_distinct(l.lists),
        names_unique_from(l, i),
        fuel >= depth_from(l, i),
    ensures
        lists_from(d, p0 + 12 * s, l.lists.len() as int, i, l.lists.take(i), fuel) == Outcome::Value(
            l.lists,
        ),
    decreases l, 0nat, l.lists.len() - i,
{
    let k = l.lists.len() as int;
    if i < k {
        let c = l.lists[i].1;
        let cs = child_start(l, s, i);
        let os = child_objs(l, o, i);
        let pc = p + np_sum(l, i);
        lemma_sums_mono(l, 0, i);
        lemma_sums_mono(l, i + 1, k);
        lemma_sums_mono(l, 0, k);
        lemma_unique_child(l, i, i);
        lemma_depth_child(l, i, i);
        let rec = list_rec(l.lists[i].0, c, s + i, cs, os, nlt);
        lemma_at_split(d, p0 + 12 * (s + i), rec, child_recs(l, s, o, i + 1, nlt));
        lemma_desc_len(c, cs, os, nlt);
        lemma_at_split(d, p0 + 12 * cs, desc_recs(c, cs, os, nlt), desc_from(l, s, o, i + 1, nlt));
        lemma_objs_len(c, os, pc, not);
        lemma_at_split(d, p0 + 12 * nlt + 8 * os, objs_region(c, os, pc, not), objs_from(l, o, p, i + 1, not));
        lemma_pseq(l);
        assert(params_in_place(d, p0 + 12 * nlt + 8 * not, c, pc)) by {
            assert forall|j: int| 0 <= j < np(c) implies spec_param(
                d,
                p0 + 12 * nlt + 8 * not + 8 * (pc + j),
            ) == Outcome::Value(#[trigger] pseq(c)[j]) by {
                assert(pseq(l)[np_sum(l, i) + j] == pseq(c)[j]);
                assert(spec_param(d, p0 + 12 * nlt + 8 * not + 8 * (p + (np_sum(l, i) + j)))
                    == Outcome::Value(pseq(l)[np_sum(l, i) + j]));
            }
        }
        lemma_read_list(d, p0, nlt, not, npt, c, l.lists[i].0, s + i, cs, os, pc, (fuel - 1) as nat);
        assert(p0 + 12 * s + 12 * i == p0 + 12 * (s + i));
        lemma_insert_new(l.lists, i);
        assert(p0 + 12 * (s + i) + rec.len() == p0 + 12 * (s + (i + 1)));
        assert(cs + nl(c) - 1 == child_start(l, s, i + 1));
        assert(os + no(c) == child_objs(l, o, i + 1));
        lemma_read_children(d, p0, nlt, not, npt, l, s, o, p, i + 1, fuel);
    } else {
        assert(l.lists.take(i) =~= l.lists);
    }
}

/// The lengths of the parts of an archive's body.
proof fn lemma_part_lens(root: ListV)
    ensures
        lists_region(root).len() == 12 * nl(root),
        objs_region(root, 0, 0, no(root) as int).len() == 8 * no(root),
        patched_params(root).len() == 8 * np(root),
{
    lemma_desc_len(root, 1, 0, nl(root) as int);
    lemma_objs_len(root, 0, 0, no(root) as int);
    lemma_params_len(root);
    let npt = np(root) as int;
    let q = collect(root, true, 0);
    let dr = data_run(q.0, q.0.len() as int);
    let sr = str_run(q.1, q.1.len() as int);
    lemma_data_patches_len(params_region(root), q.0, dr.1, q.0.len() as int, npt);
    lemma_str_patches_len(
        data_patches(params_region(root), q.0, dr.1, q.0.len() as int, npt),
        q.1,
        sr.1,
        q.1.len() as int,
        npt,
        dr.0.len() as int,
    );
    reveal(patched_params);
}

/// Where the list records of an archive with the data type `dtype` start.
pub open spec fn lists_start(dtype: Seq<char>) -> int {
    0x30 + dtype_len(vstd::utf8::encode_utf8(dtype))
}

/// Where the parts of a written archive stand.
#[verifier::spinoff_prover]
#[verifier::rlimit(60)]
proof fn lemma_layout(version: u32, dtype: Seq<char>, root: ListV)
    ensures
        ({
            let d = aamp_bytes(version, dtype, root);
            let dt = vstd::utf8::encode_utf8(dtype);
            let dtl = dtype_len(dt);
            let p0 = lists_start(dtype);
            let o0 = p0 + 12 * nl(root);
            let q0 = o0 + 8 * no(root);
            &&& at(d, 0, aamp_header(
                d.len() as int,
                version,
                dtl,
                nl(root) as int,
                no(root) as int,
                np(root) as int,
                data_section(root).len() as int,
                string_section(root).len() as int,
            ))
            &&& at(d, 0x30, dt + Seq::new((dtl - dt.len()) as nat, |i: int| 0u8))
            &&& at(d, p0, lists_region(root))
            &&& at(d, o0, objs_region(root, 0, 0, no(root) as int))
            &&& at(d, q0, patched_params(root))
            &&& at(d, q0 + 8 * np(root), data_section(root))
            &&& at(d, q0 + 8 * np(root) + data_section(root).len(), string_section(root))
            &&& d.len() == q0 + 8 * np(root) + data_section(root).len() + string_section(root).len()
        }),
{
    let d = aamp_bytes(version, dtype, root);
    let dt = vstd::utf8::encode_utf8(dtype);
    let dtl = dtype_len(dt);
    let body = aamp_body(root);
    let db = data_section(root);
    let sb = string_section(root);
    let hdr = aamp_header(
        0x30 + dtl + body.len(),
        version,
        dtl,
        nl(root) as int,
        no(root) as int,
        np(root) as int,
        db.len() as int,
        sb.len() as int,
    );
    let zeros = Seq::new((dtl - dt.len()) as nat, |i: int| 0u8);
    let lr = lists_region(root);
    let orr = objs_region(root, 0, 0, no(root) as int);
    let pp = patched_params(root);
    lemma_part_lens(root);
    assert(d == hdr + dt + zeros + body) by {
        reveal(aamp_bytes);
    }
    assert(body == lr + orr + pp + db + sb) by {
        reveal(aamp_body);
    }
    assert(hdr.len() == 0x30);
    assert(at(d, 0, d)) by {
        assert(d.subrange(0, d.len() as int) =~= d);
    }
    assert(hdr + dt + zeros + body == hdr + (dt + zeros) + body);
    lemma_at_split(d, 0, hdr + (dt + zeros), body);
    lemma_at_split(d, 0, hdr, dt + zeros);
    let p0 = 0x30 + dtl;
    lemma_at_split(d, p0, lr + orr + pp + db, sb);
    lemma_at_split(d, p0, lr + orr + pp, db);
    lemma_at_split(d, p0, lr + orr, pp);
    lemma_at_split(d, p0, lr, orr);
}

/// The header of a written archive passes the reader's checks and gives its
/// version and where its root list is.
#[verifier::spinoff_prover]
proof fn lemma_header(d: Seq<u8>, hdr: Seq<u8>, size: int, version: u32, dtl: int, a: int, b: int, c: int, e: int, f: int)
    requires
        hdr == aamp_header(size, version, dtl, a, b, c, e, f),
        at(d, 0, hdr),
        0 <= dtl <= u32::MAX,
    ensures
        d.len() >= 0x30,
        d[0] == 0x41 && d[1] == 0x41 && d[2] == 0x4D && d[3] == 0x50,
        word(d, 4) == 2,
        word(d, 8) & 1 == 1,
        word(d, 8) & 2 == 2,
        word(d, 0x10) == version,
        word(d, 0x14) == dtl,
{
    assert(hdr.len() == 0x30);
    assert(d.subrange(4, 8) =~= hdr.subrange(4, 8));
    assert(hdr.subrange(4, 8) =~= u32f(2));
    assert(d.subrange(8, 12) =~= hdr.subrange(8, 12));
    assert(hdr.subrange(8, 12) =~= u32f(3));
    assert(d.subrange(0x10, 0x14) =~= hdr.subrange(0x10, 0x14));
    assert(hdr.subrange(0x10, 0x14) =~= u32f(version));
    assert(d.subrange(0x14, 0x18) =~= hdr.subrange(0x14, 0x18));
    assert(hdr.subrange(0x14, 0x18) =~= u32f(dtl as u32));
    lemma_word_at32(d, 4, 2);
    lemma_word_at32(d, 8, 3);
    lemma_word_at32(d, 0x10, version);
    lemma_word_at32(d, 0x14, dtl as u32);
    assert(3u32 & 1u32 == 1u32) by (bit_vector);
    assert(3u32 & 2u32 == 2u32) by (bit_vector);
    assert(d[0] == hdr[0] && d[1] == hdr[1] && d[2] == hdr[2] && d[3] == hdr[3]);
}

/// The parameter records, the data and the strings of a written archive
/// stand where the reader looks for them.
#[verifier::spinoff_prover]
#[verifier::rlimit(40)]
proof fn lemma_sections_at(version: u32, dtype: Seq<char>, root: ListV)
    requires
        aamp_bytes(version, dtype, root).len() < 0x4000000,
    ensures
        sections_at(
            aamp_bytes(version, dtype, root),
            root,
            lists_start(dtype) + 12 * nl(root) + 8 * no(root),
        ),
{
    lemma_layout(version, dtype, root);
    lemma_part_lens(root);
}

/// The parameter records of a written archive read back.
#[verifier::spinoff_prover]
#[verifier::rlimit(40)]
proof fn lemma_params_back(version: u32, dtype: Seq<char>, root: ListV)
    requires
        aamp_bytes(version, dtype, root).len() < 0x4000000,
        forall|j: int| 0 <= j < np(root) ==> param_ok(#[trigger] pseq(root)[j].1),
    ensures
        params_in_place(
            aamp_bytes(version, dtype, root),
            lists_start(dtype) + 12 * nl(root) + 8 * no(root),
            root,
            0,
        ),
{
    let d = aamp_bytes(version, dtype, root);
    let q0 = lists_start(dtype) + 12 * nl(root) + 8 * no(root);
    lemma_sections_at(version, dtype, root);
    assert forall|j: int| 0 <= j < np(root) implies spec_param(d, q0 + 8 * (0 + j)) == Outcome::Value(
        #[trigger] pseq(root)[j],
    ) by {
        lemma_read_param(d, root, q0, j);
    }
}

/// The root list of a written archive reads back.
#[verifier::spinoff_prover]
#[verifier::rlimit(40)]
proof fn lemma_root_back(version: u32, dtype: Seq<char>, root: ListV)
    requires
        aamp_bytes(version, dtype, root).len() < 0x4000000,
        3 * nl(root) + 2 * no(root) + 2 * np(root) < 0x10000,
        names_unique(root),
        forall|j: int| 0 <= j < np(root) ==> param_ok(#[trigger] pseq(root)[j].1),
    ensures
        spec_list(aamp_bytes(version, dtype, root), lists_start(dtype), depth(root))
            == Outcome::Value((ROOT_KEY_HASH, root)),
{
    let d = aamp_bytes(version, dtype, root);
    let nlt = nl(root) as int;
    let not = no(root) as int;
    let npt = np(root) as int;
    let p0 = lists_start(dtype);
    lemma_layout(version, dtype, root);
    lemma_params_back(version, dtype, root);
    lemma_desc_len(root, 1, 0, nlt);
    lemma_at_split(d, p0, list_rec(ROOT_KEY_HASH, root, 0, 1, 0, nlt), desc_recs(root, 1, 0, nlt));
    assert(layout_fits(d, p0, nlt, not, npt));
    assert(list_in_place(d, p0, nlt, not, npt, root, ROOT_KEY_HASH, 0, 1, 0, 0));
    lemma_read_list(d, p0, nlt, not, npt, root, ROOT_KEY_HASH, 0, 1, 0, 0, depth(root));
    assert(p0 + 12 * 0 == p0);
}

/// The data type string of a written archive reads back.
#[verifier::spinoff_prover]
proof fn lemma_dtype_back(version: u32, dtype: Seq<char>, root: ListV)
    requires
        no_nul(vstd::utf8::encode_utf8(dtype)),
    ensures
        null_string(aamp_bytes(version, dtype, root), 0x30, Seq::empty()) == Outcome::Value(
            vstd::utf8::encode_utf8(dtype),
        ),
        str_chars(vstd::utf8::encode_utf8(dtype)) == dtype,
{
    let d = aamp_bytes(version, dtype, root);
    let dt = vstd::utf8::encode_utf8(dtype);
    let dtl = dtype_len(dt);
    lemma_layout(version, dtype, root);
    let zeros = Seq::new((dtl - dt.len()) as nat, |i: int| 0u8);
    lemma_at_split(d, 0x30, dt, zeros);
    assert(d.subrange(0x30, 0x30 + dt.len() + 1int) =~= dt.push(0u8)) by {
        assert(d[0x30 + dt.len() as int] == zeros[0]);
        assert(d.subrange(0x30, 0x30 + dt.len() as int) == dt);
    }
    lemma_null_string(d, 0x30, dt, 0);
    assert(dt.take(0) =~= Seq::<u8>::empty());
    vstd::utf8::encode_utf8_valid_utf8(dtype);
    vstd::utf8::encode_utf8_decode_utf8(dtype);
}

/// Reading a written archive gives back its data version, its data type and
/// its root list, where the archive is small enough for its offsets, no
/// two entries of one list or object share a name, every value fits its
/// type (strings without NUL and within their size, curves with their
/// words) and the data type has no NUL.
#[verifier::spinoff_prover]
#[verifier::rlimit(40)]
pub proof fn written_archive_reads_back(version: u32, dtype: Seq<char>, root: ListV)
    requires
        aamp_bytes(version, dtype, root).len() < 0x4000000,
        3 * nl(root) + 2 * no(root) + 2 * np(root) < 0x10000,
        names_unique(root),
        forall|j: int| 0 <= j < np(root) ==> param_ok(#[trigger] pseq(root)[j].1),
        no_nul(vstd::utf8::encode_utf8(dtype)),
    ensures
        spec_aamp_read(aamp_bytes(version, dtype, root)) == Outcome::Value((version, dtype, root)),
{
    let d = aamp_bytes(version, dtype, root);
    let dt = vstd::utf8::encode_utf8(dtype);
    let dtl = dtype_len(dt);
    lemma_layout(version, dtype, root);
    lemma_header(
        d,
        aamp_header(
            d.len() as int,
            version,
            dtl,
            nl(root) as int,
            no(root) as int,
            np(root) as int,
            data_section(root).len() as int,
            string_section(root).len() as int,
        ),
        d.len() as int,
        version,
        dtl,
        nl(root) as int,
        no(root) as int,
        np(root) as int,
        data_section(root).len() as int,
        string_section(root).len() as int,
    );
    lemma_root_back(version, dtype, root);
    lemma_dtype_back(version, dtype, root);
    assert(word(d, 0x14) + 0x30 == lists_start(dtype));
    assert(spec_archive(d, depth(root)) == Outcome::Value((version, dtype, root)));
    lemma_depth_lt_nl(root);
    assert(depth(root) <= d.len());
    aamp_read_fuel(d, depth(root), depth(root));
}


/// `ParameterIO::from_binary` of what `ParameterIO::to_binary` wrote gives
/// the parameter IO back (floats by their bits), under the conditions of
/// `written_archive_reads_back`: `r` is any result that `from_binary`'s
/// contract allows for the written bytes.
pub proof fn from_binary_of_to_binary(pio: ParameterIO, r: Result<ParameterIO>)
    requires
        aamp_bytes(pio.version, pio.data_type@, list_view(pio.param_root)).len() < 0x4000000,
        3 * nl(list_view(pio.param_root)) + 2 * no(list_view(pio.param_root)) + 2 * np(
            list_view(pio.param_root),
        ) < 0x10000,
        names_unique(list_view(pio.param_root)),
        forall|j: int|
            0 <= j < np(list_view(pio.param_root)) ==> param_ok(
                #[trigger] pseq(list_view(pio.param_root))[j].1,
            ),
        no_nul(vstd::utf8::encode_utf8(pio.data_type@)),
        spec_payload(aamp_bytes(pio.version, pio.data_type@, list_view(pio.param_root))) matches Some(
            b,
        ) ==> spec_from_binary_result(b, r),
    ensures
        r matches Ok(p) && pio_view(p) == pio_view(pio),
{
    let d = aamp_bytes(pio.version, pio.data_type@, list_view(pio.param_root));
    written_archive_reads_back(pio.version, pio.data_type@, list_view(pio.param_root));
    assert(d[0] == 0x41);
    assert(spec_payload(d) == Some(d));
}
} // verus!
