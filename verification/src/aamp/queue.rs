//! Laws of the order in which the writer queues parameter data.
use vstd::prelude::*;
use super::writer::{
    collect, collect_from, is_str_type, lemma_op_mono, lemma_sums_mono, np, np_sum, obj_items,
    objs_items, op_sum, own_params, first_objs, cat2, ai_prog, no, Item, ObjV, Queues,
};
use super::param::ListV;

verus! {

/// The parameters of the subtree of `l` in record order: the children's
/// subtrees first, then `l`'s own objects.
pub open spec fn pseq(l: ListV) -> ObjV
    decreases l, 1nat, 0int,
{
    pseq_from(l, 0) + pseq_own(l, 0)
}

/// The parameters of the subtrees of the children of `l` from child `i` on.
pub open spec fn pseq_from(l: ListV, i: int) -> ObjV
    decreases l, 0nat, l.lists.len() - i,
{
    if i < 0 || i >= l.lists.len() {
        Seq::empty()
    } else {
        pseq(l.lists[i].1) + pseq_from(l, i + 1)
    }
}

/// The parameters of `l`'s own objects from object `m` on.
pub open spec fn pseq_own(l: ListV, m: int) -> ObjV
    decreases l.objects.len() - m,
{
    if m < 0 || m >= l.objects.len() {
        Seq::empty()
    } else {
        l.objects[m].1 + pseq_own(l, m + 1)
    }
}

proof fn lemma_pseq_own(l: ListV, m: int)
    requires
        0 <= m <= l.objects.len(),
    ensures
        pseq_own(l, m).len() == op_sum(l, l.objects.len() as int) - op_sum(l, m),
        forall|m2: int, q: int|
            m <= m2 < l.objects.len() && 0 <= q < l.objects[m2].1.len() ==> #[trigger] pseq_own(
                l,
                m,
            )[op_sum(l, m2) - op_sum(l, m) + q] == l.objects[m2].1[q],
    decreases l.objects.len() - m,
{
    if m < l.objects.len() {
        lemma_pseq_own(l, m + 1);
        lemma_op_mono(l, m + 1, l.objects.len() as int);
        assert forall|m2: int, q: int|
            m <= m2 < l.objects.len() && 0 <= q < l.objects[m2].1.len() implies #[trigger] pseq_own(
                l,
                m,
            )[op_sum(l, m2) - op_sum(l, m) + q] == l.objects[m2].1[q] by {
            lemma_op_mono(l, m2 + 1, l.objects.len() as int);
            if m2 > m {
                lemma_op_mono(l, m + 1, m2);
                assert(pseq_own(l, m)[op_sum(l, m2) - op_sum(l, m) + q] == pseq_own(l, m + 1)[op_sum(
                    l,
                    m2,
                ) - op_sum(l, m + 1) + q]);
            }
        }
    }
}

/// Where the parameters of a child's subtree and of `l`'s own objects stand
/// among the parameters of the subtree of `l`.
pub(crate) proof fn lemma_pseq(l: ListV)
    ensures
        pseq(l).len() == np(l),
        forall|i: int, j: int|
            0 <= i < l.lists.len() && 0 <= j < np(l.lists[i].1) ==> #[trigger] pseq(l)[np_sum(l, i) + j]
                == pseq(l.lists[i].1)[j],
        forall|m: int, q: int|
            0 <= m < l.objects.len() && 0 <= q < l.objects[m].1.len() ==> #[trigger] pseq(l)[np_sum(
                l,
                l.lists.len() as int,
            ) + op_sum(l, m) + q] == l.objects[m].1[q],
    decreases l, 1nat, 0int,
{
    lemma_pseq_from(l, 0);
    lemma_pseq_own(l, 0);
    lemma_sums_mono(l, 0, l.lists.len() as int);
    assert forall|i: int, j: int|
        0 <= i < l.lists.len() && 0 <= j < np(l.lists[i].1) implies #[trigger] pseq(l)[np_sum(l, i) + j]
            == pseq(l.lists[i].1)[j] by {
        lemma_sums_mono(l, i + 1, l.lists.len() as int);
        lemma_sums_mono(l, 0, i);
        assert(pseq_from(l, 0)[np_sum(l, i) - np_sum(l, 0) + j] == pseq(l.lists[i].1)[j]);
        assert(pseq(l)[np_sum(l, i) + j] == pseq_from(l, 0)[np_sum(l, i) + j]);
    }
    assert forall|m: int, q: int|
        0 <= m < l.objects.len() && 0 <= q < l.objects[m].1.len() implies #[trigger] pseq(l)[np_sum(
            l,
            l.lists.len() as int,
        ) + op_sum(l, m) + q] == l.objects[m].1[q] by {
        lemma_op_mono(l, m + 1, l.objects.len() as int);
        lemma_op_mono(l, 0, m);
        assert(pseq_own(l, 0)[op_sum(l, m) - op_sum(l, 0) + q] == l.objects[m].1[q]);
        assert(pseq(l)[np_sum(l, l.lists.len() as int) + op_sum(l, m) + q] == pseq_own(l, 0)[op_sum(
            l,
            m,
        ) - op_sum(l, 0) + q]);
    }
}

proof fn lemma_pseq_from(l: ListV, i: int)
    requires
        0 <= i <= l.lists.len(),
    ensures
        pseq_from(l, i).len() == np_sum(l, l.lists.len() as int) - np_sum(l, i),
        forall|i2: int, j: int|
            i <= i2 < l.lists.len() && 0 <= j < np(l.lists[i2].1) ==> #[trigger] pseq_from(l, i)[np_sum(
                l,
                i2,
            ) - np_sum(l, i) + j] == pseq(l.lists[i2].1)[j],
    decreases l, 0nat, l.lists.len() - i,
{
    if i < l.lists.len() {
        lemma_pseq(l.lists[i].1);
        lemma_pseq_from(l, i + 1);
        lemma_sums_mono(l, i + 1, l.lists.len() as int);
        assert forall|i2: int, j: int|
            i <= i2 < l.lists.len() && 0 <= j < np(l.lists[i2].1) implies #[trigger] pseq_from(
                l,
                i,
            )[np_sum(l, i2) - np_sum(l, i) + j] == pseq(l.lists[i2].1)[j] by {
            lemma_sums_mono(l, i2 + 1, l.lists.len() as int);
            if i2 > i {
                lemma_sums_mono(l, i + 1, i2);
                assert(pseq_from(l, i)[np_sum(l, i2) - np_sum(l, i) + j] == pseq_from(l, i + 1)[np_sum(
                    l,
                    i2,
                ) - np_sum(l, i + 1) + j]);
            }
        }
    }
}


/// How often record index `r` occurs in a queue.
pub open spec fn cnt(s: Seq<Item>, r: int) -> nat
    decreases s.len(),
{
    if s.len() == 0 {
        0
    } else {
        cnt(s.drop_last(), r) + if s.last().0 == r {
            1nat
        } else {
            0nat
        }
    }
}

/// How often record index `r` occurs in both queues.
pub open spec fn qcnt(q: Queues, r: int) -> nat {
    cnt(q.0, r) + cnt(q.1, r)
}

/// One where `r` lies in `lo..hi`, else zero.
pub open spec fn ind(lo: int, hi: int, r: int) -> nat {
    if lo <= r < hi {
        1
    } else {
        0
    }
}

proof fn lemma_cnt_add(a: Seq<Item>, b: Seq<Item>, r: int)
    ensures
        cnt(a + b, r) == cnt(a, r) + cnt(b, r),
    decreases b.len(),
{
    if b.len() > 0 {
        lemma_cnt_add(a, b.drop_last(), r);
        assert((a + b).drop_last() =~= a + b.drop_last());
    } else {
        assert(a + b =~= a);
    }
}

proof fn lemma_cnt_front(it: Item, b: Seq<Item>, r: int)
    ensures
        cnt(seq![it] + b, r) == cnt(b, r) + if it.0 == r {
            1nat
        } else {
            0nat
        },
{
    lemma_cnt_add(seq![it], b, r);
    assert(seq![it].drop_last() =~= Seq::<Item>::empty());
    assert(cnt(Seq::<Item>::empty(), r) == 0);
    assert(seq![it].last() == it);
    assert(cnt(seq![it], r) == cnt(seq![it].drop_last(), r) + if it.0 == r {
        1nat
    } else {
        0nat
    });
}

proof fn lemma_qcnt_cat2(a: Queues, b: Queues, r: int)
    ensures
        qcnt(cat2(a, b), r) == qcnt(a, r) + qcnt(b, r),
{
    lemma_cnt_add(a.0, b.0, r);
    lemma_cnt_add(a.1, b.1, r);
}

proof fn lemma_obj_items_cnt(obj: ObjV, base: int, q: int, r: int)
    requires
        0 <= q <= obj.len(),
    ensures
        qcnt(obj_items(obj, base, q), r) == ind(base + q, base + obj.len(), r),
    decreases obj.len() - q,
{
    if q < obj.len() {
        lemma_obj_items_cnt(obj, base, q + 1, r);
        let it: Item = (base + q, obj[q].1);
        let rest = obj_items(obj, base, q + 1);
        lemma_cnt_front(it, rest.0, r);
        lemma_cnt_front(it, rest.1, r);
    }
}

proof fn lemma_objs_items_cnt(l: ListV, p: int, m1: int, m2: int, r: int)
    requires
        0 <= m1 <= m2 <= l.objects.len(),
    ensures
        qcnt(objs_items(l, p, m1, m2), r) == ind(
            own_params(l, p) + op_sum(l, m1),
            own_params(l, p) + op_sum(l, m2),
            r,
        ),
    decreases m2 - m1,
{
    if m1 < m2 {
        lemma_objs_items_cnt(l, p, m1 + 1, m2, r);
        lemma_obj_items_cnt(l.objects[m1].1, own_params(l, p) + op_sum(l, m1), 0, r);
        lemma_qcnt_cat2(
            obj_items(l.objects[m1].1, own_params(l, p) + op_sum(l, m1), 0),
            objs_items(l, p, m1 + 1, m2),
            r,
        );
        lemma_op_mono(l, m1 + 1, m2);
    }
}

pub(crate) proof fn lemma_collect_cnt(l: ListV, top: bool, p: int, r: int)
    ensures
        qcnt(collect(l, top, p), r) == ind(p, p + np(l), r),
    decreases l, 1nat, 0int,
{
    let m0 = first_objs(l, top);
    lemma_objs_items_cnt(l, p, 0, m0, r);
    lemma_collect_from_cnt(l, p, 0, m0, r);
    lemma_qcnt_cat2(objs_items(l, p, 0, m0), collect_from(l, p, 0, m0), r);
    lemma_op_mono(l, 0, m0);
    lemma_op_mono(l, m0, l.objects.len() as int);
    lemma_sums_mono(l, 0, l.lists.len() as int);
}

proof fn lemma_collect_from_cnt(l: ListV, p: int, i: int, m: int, r: int)
    requires
        0 <= i <= l.lists.len(),
        0 <= m <= l.objects.len(),
    ensures
        qcnt(collect_from(l, p, i, m), r) == ind(p + np_sum(l, i), own_params(l, p), r) + ind(
            own_params(l, p) + op_sum(l, m),
            own_params(l, p) + op_sum(l, l.objects.len() as int),
            r,
        ),
    decreases l, 0nat, l.lists.len() - i,
{
    if i < l.lists.len() {
        let m2 = if !ai_prog(l) && i % 2 == 0 && m < l.objects.len() {
            m + 1
        } else {
            m
        };
        lemma_objs_items_cnt(l, p, m, m2, r);
        lemma_collect_cnt(l.lists[i].1, false, p + np_sum(l, i), r);
        lemma_collect_from_cnt(l, p, i + 1, m2, r);
        lemma_qcnt_cat2(objs_items(l, p, m, m2), collect(l.lists[i].1, false, p + np_sum(l, i)), r);
        lemma_qcnt_cat2(
            cat2(objs_items(l, p, m, m2), collect(l.lists[i].1, false, p + np_sum(l, i))),
            collect_from(l, p, i + 1, m2),
            r,
        );
        lemma_op_mono(l, m, m2);
        lemma_op_mono(l, m2, l.objects.len() as int);
        lemma_sums_mono(l, i + 1, l.lists.len() as int);
    } else {
        lemma_objs_items_cnt(l, p, m, l.objects.len() as int, r);
    }
}

/// An item of the queues of the subtree of `l`, whose records start at
/// `p`: its record index lies there and it carries that record's value.
pub open spec fn item_of(l: ListV, p: int, it: Item) -> bool {
    p <= it.0 < p + np(l) && it.1 == pseq(l)[it.0 - p].1
}

/// Both queues hold items of the subtree of `l`, the first no strings, the
/// second only strings.
pub open spec fn queues_of(l: ListV, p: int, q: Queues) -> bool {
    &&& forall|k: int| 0 <= k < q.0.len() ==> item_of(l, p, #[trigger] q.0[k])
    &&& forall|k: int| 0 <= k < q.1.len() ==> item_of(l, p, #[trigger] q.1[k])
    &&& forall|k: int| 0 <= k < q.0.len() ==> !is_str_type((#[trigger] q.0[k]).1.0)
    &&& forall|k: int| 0 <= k < q.1.len() ==> is_str_type((#[trigger] q.1[k]).1.0)
}

proof fn lemma_queues_cat2(l: ListV, p: int, a: Queues, b: Queues)
    requires
        queues_of(l, p, a),
        queues_of(l, p, b),
    ensures
        queues_of(l, p, cat2(a, b)),
{
    let c = cat2(a, b);
    assert forall|k: int| 0 <= k < c.0.len() implies item_of(l, p, #[trigger] c.0[k]) && !is_str_type(c.0[k].1.0) by {
        if k < a.0.len() {
            assert(c.0[k] == a.0[k]);
        } else {
            assert(c.0[k] == b.0[k - a.0.len()]);
        }
    }
    assert forall|k: int| 0 <= k < c.1.len() implies item_of(l, p, #[trigger] c.1[k]) && is_str_type(c.1[k].1.0) by {
        if k < a.1.len() {
            assert(c.1[k] == a.1[k]);
        } else {
            assert(c.1[k] == b.1[k - a.1.len()]);
        }
    }
}

proof fn lemma_obj_items_of(l: ListV, p: int, m: int, q: int)
    requires
        0 <= m < l.objects.len(),
        0 <= q <= l.objects[m].1.len(),
    ensures
        queues_of(l, p, obj_items(l.objects[m].1, own_params(l, p) + op_sum(l, m), q)),
    decreases l.objects[m].1.len() - q,
{
    let obj = l.objects[m].1;
    let base = own_params(l, p) + op_sum(l, m);
    if q < obj.len() {
        lemma_obj_items_of(l, p, m, q + 1);
        lemma_pseq(l);
        lemma_op_mono(l, m + 1, l.objects.len() as int);
        let it: Item = (base + q, obj[q].1);
        assert(pseq(l)[np_sum(l, l.lists.len() as int) + op_sum(l, m) + q] == obj[q]);
        assert(item_of(l, p, it));
        let rest = obj_items(obj, base, q + 1);
        let single: Queues = if is_str_type(obj[q].1.0) {
            (Seq::empty(), seq![it])
        } else {
            (seq![it], Seq::empty())
        };
        assert(queues_of(l, p, single));
        lemma_queues_cat2(l, p, single, rest);
        assert(cat2(single, rest).0 =~= obj_items(obj, base, q).0);
        assert(cat2(single, rest).1 =~= obj_items(obj, base, q).1);
    }
}

proof fn lemma_objs_items_of(l: ListV, p: int, m1: int, m2: int)
    requires
        0 <= m1 <= m2 <= l.objects.len(),
    ensures
        queues_of(l, p, objs_items(l, p, m1, m2)),
    decreases m2 - m1,
{
    if m1 < m2 {
        lemma_objs_items_of(l, p, m1 + 1, m2);
        lemma_obj_items_of(l, p, m1, 0);
        lemma_queues_cat2(
            l,
            p,
            obj_items(l.objects[m1].1, own_params(l, p) + op_sum(l, m1), 0),
            objs_items(l, p, m1 + 1, m2),
        );
    }
}

/// Items of a child's subtree are items of the parent's.
proof fn lemma_child_items(l: ListV, p: int, i: int, q: Queues)
    requires
        0 <= i < l.lists.len(),
        queues_of(l.lists[i].1, p + np_sum(l, i), q),
    ensures
        queues_of(l, p, q),
{
    let c = l.lists[i].1;
    let pc = p + np_sum(l, i);
    lemma_pseq(l);
    lemma_sums_mono(l, i + 1, l.lists.len() as int);
    assert forall|it: Item| item_of(c, pc, it) implies item_of(l, p, it) by {
        assert(pseq(l)[np_sum(l, i) + (it.0 - pc)] == pseq(c)[it.0 - pc]);
    }
    assert forall|k: int| 0 <= k < q.0.len() implies item_of(l, p, #[trigger] q.0[k]) by {
        assert(item_of(c, pc, q.0[k]));
    }
    assert forall|k: int| 0 <= k < q.1.len() implies item_of(l, p, #[trigger] q.1[k]) by {
        assert(item_of(c, pc, q.1[k]));
    }
}

proof fn lemma_collect_of(l: ListV, top: bool, p: int)
    ensures
        queues_of(l, p, collect(l, top, p)),
    decreases l, 1nat, 0int,
{
    let m0 = first_objs(l, top);
    lemma_objs_items_of(l, p, 0, m0);
    lemma_collect_from_of(l, p, 0, m0);
    lemma_queues_cat2(l, p, objs_items(l, p, 0, m0), collect_from(l, p, 0, m0));
}

proof fn lemma_collect_from_of(l: ListV, p: int, i: int, m: int)
    requires
        0 <= i <= l.lists.len(),
        0 <= m <= l.objects.len(),
    ensures
        queues_of(l, p, collect_from(l, p, i, m)),
    decreases l, 0nat, l.lists.len() - i,
{
    if i < l.lists.len() {
        let m2 = if !ai_prog(l) && i % 2 == 0 && m < l.objects.len() {
            m + 1
        } else {
            m
        };
        lemma_objs_items_of(l, p, m, m2);
        lemma_collect_of(l.lists[i].1, false, p + np_sum(l, i));
        lemma_child_items(l, p, i, collect(l.lists[i].1, false, p + np_sum(l, i)));
        lemma_collect_from_of(l, p, i + 1, m2);
        lemma_queues_cat2(l, p, objs_items(l, p, m, m2), collect(l.lists[i].1, false, p + np_sum(l, i)));
        lemma_queues_cat2(
            l,
            p,
            cat2(objs_items(l, p, m, m2), collect(l.lists[i].1, false, p + np_sum(l, i))),
            collect_from(l, p, i + 1, m2),
        );
    } else {
        lemma_objs_items_of(l, p, m, l.objects.len() as int);
    }
}

/// The order in which the writer queues parameters for their data is a
/// reordering of all the parameters of the archive: every parameter record
/// is queued exactly once, carrying that record's value, parameters with
/// data in the first queue and strings in the second.
pub proof fn collect_queues_each_parameter_once(root: ListV)
    ensures
        forall|r: int| #[trigger] qcnt(collect(root, true, 0), r) == if 0 <= r < np(root) {
            1nat
        } else {
            0nat
        },
        queues_of(root, 0, collect(root, true, 0)),
{
    assert forall|r: int| #[trigger] qcnt(collect(root, true, 0), r) == if 0 <= r < np(root) {
        1nat
    } else {
        0nat
    } by {
        lemma_collect_cnt(root, true, 0, r);
    }
    lemma_collect_of(root, true, 0);
}

} // verus!
