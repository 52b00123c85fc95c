//! Labels in order of their element ids. Tuta's generated ids are
//! time-ordered, so this is creation order.
use vstd::prelude::*;

use crate::labels::{label_views, LabelInfo, LabelInfoView};
use crate::text::{
    lemma_lex_lt_irreflexive, lemma_lex_lt_total, lemma_lex_lt_transitive, lex_lt, str_less,
};

verus! {

/// `sorted` with `x` put after every label whose id is not greater than its
/// own: one step of a stable sort by id.
pub open spec fn insert_by_id(sorted: Seq<LabelInfoView>, x: LabelInfoView) -> Seq<LabelInfoView>
    decreases sorted.len(),
{
    if sorted.len() == 0 {
        seq![x]
    } else if lex_lt(x.id, sorted.last().id) {
        insert_by_id(sorted.drop_last(), x).push(sorted.last())
    } else {
        sorted.push(x)
    }
}

/// Labels in the order of their element ids, labels with equal ids in the
/// order they came in (a stable sort by id, as `sort_by` on the id does).
pub open spec fn sort_by_id(labels: Seq<LabelInfoView>) -> Seq<LabelInfoView>
    decreases labels.len(),
{
    if labels.len() == 0 {
        seq![]
    } else {
        insert_by_id(sort_by_id(labels.drop_last()), labels.last())
    }
}

/// Inserting by id puts `x` at the position `p` that the scan from the end
/// stops at: every label from `p` on has a greater id, the one before does not.
proof fn lemma_insert_by_id_at(sorted: Seq<LabelInfoView>, x: LabelInfoView, p: int)
    requires
        0 <= p <= sorted.len(),
        forall|q: int| p <= q < sorted.len() ==> lex_lt(x.id, #[trigger] sorted[q].id),
        p > 0 ==> !lex_lt(x.id, sorted[p - 1].id),
    ensures
        insert_by_id(sorted, x) == sorted.take(p).push(x) + sorted.skip(p),
    decreases sorted.len(),
{
    if p == sorted.len() {
        assert(sorted.take(p) =~= sorted);
        assert(sorted.skip(p) =~= Seq::<LabelInfoView>::empty());
        assert(sorted.push(x) + Seq::<LabelInfoView>::empty() =~= sorted.push(x));
    } else {
        let init = sorted.drop_last();
        assert(lex_lt(x.id, sorted[sorted.len() - 1].id));
        lemma_insert_by_id_at(init, x, p);
        assert(init.take(p) =~= sorted.take(p));
        assert((init.take(p).push(x) + init.skip(p)).push(sorted.last()) =~= sorted.take(p).push(x)
            + sorted.skip(p));
    }
}

/// `labels` sorted stably by element id.
pub(crate) fn sort_labels_by_id(labels: Vec<LabelInfo>) -> (sorted: Vec<LabelInfo>)
    ensures
        label_views(sorted@) == sort_by_id(label_views(labels@)),
{
    let ghost all = label_views(labels@);
    let mut rest = labels;
    let mut sorted: Vec<LabelInfo> = Vec::new();
    let ghost mut k: int = 0;
    assert(all.take(0) =~= Seq::<LabelInfoView>::empty());
    assert(label_views(rest@) =~= all.skip(0));
    while rest.len() > 0
        invariant
            0 <= k <= all.len(),
            label_views(rest@) == all.skip(k),
            label_views(sorted@) == sort_by_id(all.take(k)),
        decreases rest@.len(),
    {
        let ghost old_raw = rest@;
        let ghost old_rest = label_views(rest@);
        assert(old_rest.len() == rest@.len());
        let x = rest.remove(0);
        let ghost xv = x@;
        assert(old_rest[0] == xv);
        assert(xv == all[k]);
        let mut pos = sorted.len();
        while pos > 0 && str_less(x.id.as_str(), sorted[pos - 1].id.as_str())
            invariant
                pos <= sorted@.len(),
                xv == x@,
                forall|q: int|
                    pos <= q < sorted@.len() ==> lex_lt(xv.id, #[trigger] label_views(sorted@)[q].id),
            decreases pos,
        {
            assert(label_views(sorted@)[pos - 1] == sorted@[pos - 1]@);
            pos = pos - 1;
        }
        let ghost before = label_views(sorted@);
        proof {
            lemma_insert_by_id_at(before, xv, pos as int);
        }
        sorted.insert(pos, x);
        assert(label_views(sorted@) =~= before.take(pos as int).push(xv) + before.skip(pos as int));
        assert(all.take(k + 1).drop_last() =~= all.take(k));
        assert(rest@ =~= old_raw.drop_first());
        assert forall|i: int| 0 <= i < rest@.len() implies label_views(rest@)[i] == all.skip(k + 1)[i] by {
            assert(old_rest[i + 1] == old_raw[i + 1]@);
        }
        assert(label_views(rest@) =~= all.skip(k + 1));
        proof {
            k = k + 1;
        }
    }
    assert(all.take(k) =~= all);
    sorted
}

/// Labels in non-decreasing order of their ids.
pub open spec fn is_sorted_by_id(s: Seq<LabelInfoView>) -> bool {
    forall|i: int, j: int| 0 <= i < j < s.len() ==> !lex_lt(#[trigger] s[j].id, #[trigger] s[i].id)
}

/// No two labels share an element id.
pub open spec fn distinct_ids(s: Seq<LabelInfoView>) -> bool {
    forall|i: int, j: int| 0 <= i < j < s.len() ==> #[trigger] s[i].id != #[trigger] s[j].id
}

/// Inserting by id into sorted labels keeps them sorted and adds just `x`.
proof fn lemma_insert_by_id_sorted(t: Seq<LabelInfoView>, x: LabelInfoView)
    requires
        is_sorted_by_id(t),
    ensures
        is_sorted_by_id(insert_by_id(t, x)),
        insert_by_id(t, x).to_multiset() == t.to_multiset().insert(x),
    decreases t.len(),
{
    broadcast use vstd::seq_lib::group_to_multiset_ensures;

    if t.len() == 0 {
        assert(seq![x] =~= Seq::<LabelInfoView>::empty().push(x));
    } else if lex_lt(x.id, t.last().id) {
        let t2 = t.drop_last();
        let last = t.last();
        lemma_insert_by_id_sorted(t2, x);
        let r = insert_by_id(t2, x);
        let big = r.push(last);
        assert(t =~= t2.push(last));
        assert forall|i: int, j: int| 0 <= i < j < big.len() implies !lex_lt(
            #[trigger] big[j].id,
            #[trigger] big[i].id,
        ) by {
            if j == r.len() {
                let e = r[i];
                assert(r.to_multiset().count(e) > 0);
                if e == x {
                    if lex_lt(last.id, x.id) {
                        lemma_lex_lt_transitive(x.id, last.id, x.id);
                        lemma_lex_lt_irreflexive(x.id);
                    }
                } else {
                    assert(t2.contains(e));
                    let k = choose|k: int| 0 <= k < t2.len() && t2[k] == e;
                    assert(!lex_lt(t[t.len() - 1].id, t[k].id));
                }
            } else {
                assert(big[i] == r[i] && big[j] == r[j]);
            }
        }
        assert(big.to_multiset() =~= t.to_multiset().insert(x));
    } else {
        let big = t.push(x);
        let last = t.last();
        assert forall|i: int, j: int| 0 <= i < j < big.len() implies !lex_lt(
            #[trigger] big[j].id,
            #[trigger] big[i].id,
        ) by {
            if j == t.len() && i < t.len() - 1 {
                let e = t[i];
                assert(!lex_lt(last.id, e.id));
                if lex_lt(x.id, e.id) {
                    if e.id == last.id {
                    } else {
                        lemma_lex_lt_total(e.id, last.id);
                        lemma_lex_lt_transitive(x.id, e.id, last.id);
                    }
                }
            }
        }
    }
}

/// Sorting by id gives labels in order of their ids, the same labels as
/// before.
pub proof fn lemma_sort_by_id(labels: Seq<LabelInfoView>)
    ensures
        is_sorted_by_id(sort_by_id(labels)),
        sort_by_id(labels).to_multiset() == labels.to_multiset(),
    decreases labels.len(),
{
    broadcast use vstd::seq_lib::group_to_multiset_ensures;

    if labels.len() == 0 {
        assert(labels =~= Seq::<LabelInfoView>::empty());
        assert(sort_by_id(labels) =~= Seq::<LabelInfoView>::empty());
    } else {
        lemma_sort_by_id(labels.drop_last());
        lemma_insert_by_id_sorted(sort_by_id(labels.drop_last()), labels.last());
        assert(labels =~= labels.drop_last().push(labels.last()));
    }
}

/// Labels with distinct ids keep them distinct under any rearrangement.
pub proof fn lemma_distinct_ids_permuted(a: Seq<LabelInfoView>, b: Seq<LabelInfoView>)
    requires
        a.to_multiset() == b.to_multiset(),
        distinct_ids(a),
    ensures
        distinct_ids(b),
{
    broadcast use vstd::seq_lib::group_to_multiset_ensures;

    assert forall|i: int, j: int| 0 <= i < a.len() && 0 <= j < a.len() && i != j implies a[i]
        != a[j] by {
        if i < j {
            assert(a[i].id != a[j].id);
        } else {
            assert(a[j].id != a[i].id);
        }
    }
    assert(a.no_duplicates());
    a.lemma_multiset_has_no_duplicates();
    b.lemma_multiset_has_no_duplicates_conv();
    assert forall|i: int, j: int| 0 <= i < j < b.len() implies #[trigger] b[i].id != #[trigger] b[
        j
    ].id by {
        if b[i].id == b[j].id {
            assert(b.to_multiset().count(b[i]) > 0);
            assert(b.to_multiset().count(b[j]) > 0);
            let k = choose|k: int| 0 <= k < a.len() && a[k] == b[i];
            let l = choose|l: int| 0 <= l < a.len() && a[l] == b[j];
            if k < l {
                assert(a[k].id != a[l].id);
            } else if l < k {
                assert(a[l].id != a[k].id);
            }
        }
    }
}

/// Two orderings by id of the same labels with distinct ids are the same.
pub proof fn lemma_sorted_unique(a: Seq<LabelInfoView>, b: Seq<LabelInfoView>)
    requires
        is_sorted_by_id(a),
        is_sorted_by_id(b),
        distinct_ids(a),
        distinct_ids(b),
        a.to_multiset() == b.to_multiset(),
    ensures
        a == b,
    decreases a.len(),
{
    broadcast use vstd::seq_lib::group_to_multiset_ensures;

    assert(a.len() == a.to_multiset().len());
    assert(b.len() == b.to_multiset().len());
    if a.len() == 0 {
        assert(a =~= b);
    } else {
        assert(a.to_multiset().count(a[0]) > 0);
        assert(b.to_multiset().count(b[0]) > 0);
        let j = choose|j: int| 0 <= j < b.len() && b[j] == a[0];
        let i = choose|i: int| 0 <= i < a.len() && a[i] == b[0];
        if j > 0 {
            lemma_lex_lt_total(b[0].id, b[j].id);
            if i > 0 {
                assert(!lex_lt(a[i].id, a[0].id));
            }
        }
        assert(a[0] == b[0]);
        let a2 = a.drop_first();
        let b2 = b.drop_first();
        assert(a.remove(0) =~= a2);
        assert(b.remove(0) =~= b2);
        assert(is_sorted_by_id(a2)) by {
            assert forall|x: int, y: int| 0 <= x < y < a2.len() implies !lex_lt(
                #[trigger] a2[y].id,
                #[trigger] a2[x].id,
            ) by {
                assert(a2[x] == a[x + 1] && a2[y] == a[y + 1]);
            }
        }
        assert(is_sorted_by_id(b2)) by {
            assert forall|x: int, y: int| 0 <= x < y < b2.len() implies !lex_lt(
                #[trigger] b2[y].id,
                #[trigger] b2[x].id,
            ) by {
                assert(b2[x] == b[x + 1] && b2[y] == b[y + 1]);
            }
        }
        assert(distinct_ids(a2)) by {
            assert forall|x: int, y: int| 0 <= x < y < a2.len() implies #[trigger] a2[x].id
                != #[trigger] a2[y].id by {
                assert(a2[x] == a[x + 1] && a2[y] == a[y + 1]);
            }
        }
        assert(distinct_ids(b2)) by {
            assert forall|x: int, y: int| 0 <= x < y < b2.len() implies #[trigger] b2[x].id
                != #[trigger] b2[y].id by {
                assert(b2[x] == b[x + 1] && b2[y] == b[y + 1]);
            }
        }
        lemma_sorted_unique(a2, b2);
        assert forall|k: int| 0 <= k < a.len() implies a[k] == b[k] by {
            if k > 0 {
                assert(a[k] == a2[k - 1] && b[k] == b2[k - 1]);
            }
        }
        assert(a =~= b);
    }
}

/// Sorting keeps the number of labels.
pub proof fn lemma_sort_by_id_len(labels: Seq<LabelInfoView>)
    ensures
        sort_by_id(labels).len() == labels.len(),
    decreases labels.len(),
{
    if labels.len() > 0 {
        lemma_sort_by_id_len(labels.drop_last());
        lemma_insert_by_id_len(sort_by_id(labels.drop_last()), labels.last());
    }
}

proof fn lemma_insert_by_id_len(sorted: Seq<LabelInfoView>, x: LabelInfoView)
    ensures
        insert_by_id(sorted, x).len() == sorted.len() + 1,
    decreases sorted.len(),
{
    if sorted.len() > 0 {
        lemma_insert_by_id_len(sorted.drop_last(), x);
    }
}

} // verus!
