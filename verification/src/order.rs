//! Reordering of a report's rows: a stable sort by descending item
//! index, and the facts that pin its result down.

use crate::line::{line_views, Line, LineV};
use vstd::prelude::*;

verus! {

/// Whether the rows come in descending item-index order.
pub open spec fn sorted_desc(s: Seq<LineV>) -> bool {
    forall|i: int, j: int| 0 <= i < j < s.len() ==> s[i].item_idx >= s[j].item_idx
}

/// The subsequence of rows carrying item index `k`, in their order.
pub open spec fn by_idx(s: Seq<LineV>, k: nat) -> Seq<LineV> {
    s.filter(|l: LineV| l.item_idx == k)
}

/// A filter keeps nothing of a sequence none of whose elements matches.
proof fn lemma_filter_none(s: Seq<LineV>, pred: spec_fn(LineV) -> bool)
    requires
        forall|i: int| 0 <= i < s.len() ==> !pred(s[i]),
    ensures
        s.filter(pred) == Seq::<LineV>::empty(),
    decreases s.len(),
{
    reveal(Seq::filter);
    if s.len() > 0 {
        lemma_filter_none(s.drop_last(), pred);
    }
}

/// What a filter keeps of a one-element sequence.
proof fn lemma_filter_singleton(x: LineV, pred: spec_fn(LineV) -> bool)
    ensures
        pred(x) ==> seq![x].filter(pred) == seq![x],
        !pred(x) ==> seq![x].filter(pred) == Seq::<LineV>::empty(),
{
    reveal(Seq::filter);
    assert(seq![x].drop_last() =~= Seq::<LineV>::empty());
    assert(seq![x].last() == x);
    assert(Seq::<LineV>::empty().filter(pred) == Seq::<LineV>::empty());
    if pred(x) {
        assert(seq![x].filter(pred) =~= seq![x]);
    }
}

/// A nonempty filter exhibits a matching element of the sequence.
proof fn lemma_filter_elem_exists(s: Seq<LineV>, pred: spec_fn(LineV) -> bool)
    requires
        s.filter(pred).len() > 0,
    ensures
        exists|i: int| 0 <= i < s.len() && pred(s[i]),
    decreases s.len(),
{
    reveal(Seq::filter);
    if s.len() > 0 {
        if pred(s.last()) {
            assert(pred(s[s.len() - 1]));
        } else {
            lemma_filter_elem_exists(s.drop_last(), pred);
            let i = choose|i: int| 0 <= i < s.drop_last().len() && pred(s.drop_last()[i]);
            assert(pred(s[i]));
        }
    }
}

/// A filter unfolds at the front of a nonempty sequence.
proof fn lemma_filter_front(s: Seq<LineV>, pred: spec_fn(LineV) -> bool)
    requires
        s.len() > 0,
    ensures
        pred(s[0]) ==> s.filter(pred) == seq![s[0]] + s.drop_first().filter(pred),
        !pred(s[0]) ==> s.filter(pred) == s.drop_first().filter(pred),
{
    assert(s =~= seq![s[0]] + s.drop_first());
    Seq::filter_distributes_over_add(seq![s[0]], s.drop_first(), pred);
    lemma_filter_singleton(s[0], pred);
    if !pred(s[0]) {
        assert(Seq::<LineV>::empty() + s.drop_first().filter(pred) =~= s.drop_first().filter(
            pred,
        ));
    }
}

/// Moving one row left, over rows with strictly smaller keys only,
/// keeps every per-index subsequence.
proof fn lemma_move_keeps_filters(lv: Seq<LineV>, i: int, j: int)
    requires
        0 <= j < i < lv.len(),
        forall|m: int| j <= m < i ==> lv[m].item_idx < lv[i].item_idx,
    ensures
        forall|k: nat| #[trigger] by_idx(lv.remove(i).insert(j, lv[i]), k) == by_idx(lv, k),
{
    let xv = lv[i];
    let a = lv.take(j);
    let b = lv.subrange(j, i);
    let c = lv.subrange(i + 1, lv.len() as int);
    let nlv = lv.remove(i).insert(j, xv);
    assert(nlv =~= a + seq![xv] + b + c);
    assert(lv =~= a + b + seq![xv] + c);
    assert forall|k: nat| #[trigger] by_idx(nlv, k) == by_idx(lv, k) by {
        let pred = |l: LineV| l.item_idx == k;
        Seq::filter_distributes_over_add(a + seq![xv] + b, c, pred);
        Seq::filter_distributes_over_add(a + seq![xv], b, pred);
        Seq::filter_distributes_over_add(a, seq![xv], pred);
        Seq::filter_distributes_over_add(a + b + seq![xv], c, pred);
        Seq::filter_distributes_over_add(a + b, seq![xv], pred);
        Seq::filter_distributes_over_add(a, b, pred);
        lemma_filter_singleton(xv, pred);
        if k == xv.item_idx {
            lemma_filter_none(b, pred);
            assert(a.filter(pred) + seq![xv] + Seq::<LineV>::empty() + c.filter(pred)
                =~= a.filter(pred) + Seq::<LineV>::empty() + seq![xv] + c.filter(pred));
        } else {
            assert(a.filter(pred) + Seq::<LineV>::empty() + b.filter(pred) + c.filter(pred)
                =~= a.filter(pred) + b.filter(pred) + Seq::<LineV>::empty() + c.filter(pred));
        }
    }
}

/// Moving one row left to its place extends the sorted prefix by one.
proof fn lemma_move_sorts_prefix(lv: Seq<LineV>, i: int, j: int)
    requires
        0 <= j < i < lv.len(),
        forall|m: int| j <= m < i ==> lv[m].item_idx < lv[i].item_idx,
        sorted_desc(lv.take(i)),
        j > 0 ==> lv[j - 1].item_idx >= lv[i].item_idx,
    ensures
        sorted_desc(lv.remove(i).insert(j, lv[i]).take(i + 1)),
{
    let nlv = lv.remove(i).insert(j, lv[i]);
    assert(forall|m: int| 0 <= m < i ==> lv[m] == if m < j {
        nlv[m]
    } else {
        nlv[m + 1]
    });
    assert(nlv[j] == lv[i]);
    assert forall|p: int, q: int| 0 <= p < q < i + 1 implies nlv[p].item_idx >= nlv[q].item_idx by {
        if p < j {
            if q < j {
                assert(lv.take(i)[p] == lv[p] && lv.take(i)[q] == lv[q]);
            } else if q == j {
                assert(nlv[p] == lv[p]);
                if p < j - 1 {
                    assert(lv.take(i)[p] == lv[p] && lv.take(i)[j - 1] == lv[j - 1]);
                }
                assert(lv[p].item_idx >= lv[j - 1].item_idx);
            } else {
                assert(nlv[p] == lv[p] && nlv[q] == lv[q - 1]);
                assert(lv.take(i)[p] == lv[p] && lv.take(i)[q - 1] == lv[q - 1]);
            }
        } else if p == j {
            assert(nlv[q] == lv[q - 1]);
            assert(lv[q - 1].item_idx < lv[i].item_idx);
        } else {
            assert(nlv[p] == lv[p - 1] && nlv[q] == lv[q - 1]);
            assert(lv.take(i)[p - 1] == lv[p - 1] && lv.take(i)[q - 1] == lv[q - 1]);
        }
    }
    assert(sorted_desc(nlv.take(i + 1))) by {
        assert(forall|p: int, q: int|
            0 <= p < q < nlv.take(i + 1).len() ==> nlv.take(i + 1)[p] == nlv[p] && nlv.take(
                i + 1,
            )[q] == nlv[q]);
    }
}

/// Stable sort of the rows by descending item index: rows sharing one
/// index keep their relative order.
pub fn sort_desc(v: &mut Vec<Line>)
    ensures
        final(v)@.len() == old(v)@.len(),
        sorted_desc(line_views(final(v)@)),
        forall|k: nat| #[trigger] by_idx(line_views(final(v)@), k) == by_idx(
            line_views(old(v)@),
            k,
        ),
{
    let ghost orig = line_views(old(v)@);
    let mut i: usize = 1;
    while i < v.len()
        invariant
            1 <= i,
            i <= v@.len() || v@.len() == 0,
            v@.len() == old(v)@.len(),
            orig == line_views(old(v)@),
            sorted_desc(line_views(v@).take(i as int)) || v@.len() == 0,
            forall|k: nat| #[trigger] by_idx(line_views(v@), k) == by_idx(orig, k),
        decreases v@.len() - i,
    {
        let ghost lv = line_views(v@);
        let key = v[i].item_idx;
        let mut j: usize = i;
        while j > 0 && v[j - 1].item_idx < key
            invariant
                0 <= j <= i,
                i < v@.len(),
                lv == line_views(v@),
                key as nat == lv[i as int].item_idx,
                forall|m: int| j <= m < i ==> lv[m].item_idx < key as nat,
            decreases j,
        {
            j -= 1;
        }
        if j < i {
            let x = v.remove(i);
            v.insert(j, x);
            proof {
                assert(line_views(v@) =~= lv.remove(i as int).insert(j as int, lv[i as int]));
                lemma_move_keeps_filters(lv, i as int, j as int);
                lemma_move_sorts_prefix(lv, i as int, j as int);
            }
        } else {
            proof {
                // No move: the row already stands after one with a key
                // at least as large.
                assert(j == i);
                assert(lv[i as int - 1].item_idx >= key as nat);
                assert forall|p: int, q: int| 0 <= p < q < i as int + 1 implies lv[p].item_idx
                    >= lv[q].item_idx by {
                    if q < i as int {
                        assert(lv.take(i as int)[p] == lv[p] && lv.take(i as int)[q] == lv[q]);
                    } else {
                        if p < i as int - 1 {
                            assert(lv.take(i as int)[p] == lv[p] && lv.take(i as int)[i as int - 1]
                                == lv[i as int - 1]);
                        }
                        assert(lv[p].item_idx >= lv[i as int - 1].item_idx);
                    }
                }
                assert(sorted_desc(lv.take(i as int + 1))) by {
                    assert(forall|p: int, q: int|
                        0 <= p < q < lv.take(i as int + 1).len() ==> lv.take(i as int + 1)[p]
                            == lv[p] && lv.take(i as int + 1)[q] == lv[q]);
                }
            }
        }
        i += 1;
    }
    proof {
        if v@.len() > 0 {
            assert(line_views(v@).take(i as int) =~= line_views(v@));
        }
    }
}

/// Reversal stability: two row sequences in descending item order that
/// hold the same rows for every item index are the same sequence.
/// Since reversing establishes descending order and keeps every
/// per-index subsequence, a report already in reverse item order is
/// left unchanged by a reversal, and a second reversal changes nothing
/// further.
pub proof fn lemma_reversed_unique(s1: Seq<LineV>, s2: Seq<LineV>)
    requires
        sorted_desc(s1),
        sorted_desc(s2),
        forall|k: nat| #[trigger] by_idx(s1, k) == by_idx(s2, k),
    ensures
        s1 == s2,
    decreases s1.len(),
{
    reveal(Seq::filter);
    if s1.len() == 0 {
        if s2.len() > 0 {
            let k2 = s2[0].item_idx;
            let pred = |l: LineV| l.item_idx == k2;
            lemma_filter_front(s2, pred);
            assert(by_idx(s2, k2).len() > 0);
            assert(by_idx(s1, k2).len() == 0);
            assert(false);
        }
        assert(s1 =~= s2);
    } else if s2.len() == 0 {
        let k1 = s1[0].item_idx;
        let pred = |l: LineV| l.item_idx == k1;
        lemma_filter_front(s1, pred);
        assert(by_idx(s1, k1).len() > 0);
        assert(by_idx(s2, k1).len() == 0);
        assert(false);
    } else {
        let k1 = s1[0].item_idx;
        let k2 = s2[0].item_idx;
        let pred_a = |l: LineV| l.item_idx == k1;
        let pred_b = |l: LineV| l.item_idx == k2;
        lemma_filter_front(s1, pred_a);
        lemma_filter_front(s2, pred_b);
        // Each head's index occurs in the other sequence, whose head
        // carries its largest index.
        assert(by_idx(s1, k1) == seq![s1[0]] + s1.drop_first().filter(pred_a));
        assert(by_idx(s1, k1).len() > 0);
        assert(by_idx(s2, k1).len() > 0);
        lemma_filter_elem_exists(s2, pred_a);
        let wit_b = choose|m: int| 0 <= m < s2.len() && pred_a(s2[m]);
        assert(s2[0].item_idx >= s2[wit_b].item_idx);
        assert(k2 >= k1);
        assert(by_idx(s2, k2) == seq![s2[0]] + s2.drop_first().filter(pred_b));
        assert(by_idx(s2, k2).len() > 0);
        assert(by_idx(s1, k2).len() > 0);
        lemma_filter_elem_exists(s1, pred_b);
        let wit_a = choose|m: int| 0 <= m < s1.len() && pred_b(s1[m]);
        assert(s1[0].item_idx >= s1[wit_a].item_idx);
        assert(k1 >= k2);
        assert(k1 == k2);
        // Equal head rows: both stand first in the shared per-index
        // subsequence.
        lemma_filter_front(s2, pred_a);
        assert(by_idx(s1, k1)[0] == s1[0]);
        assert(by_idx(s2, k1)[0] == s2[0]);
        assert(s1[0] == s2[0]);
        // The tails satisfy the same premises.
        let t1 = s1.drop_first();
        let t2 = s2.drop_first();
        assert(forall|i: int| 0 <= i < t1.len() ==> #[trigger] t1[i] == s1[i + 1]);
        assert(forall|i: int| 0 <= i < t2.len() ==> #[trigger] t2[i] == s2[i + 1]);
        assert forall|i: int, j: int| 0 <= i < j < t1.len() implies t1[i].item_idx
            >= t1[j].item_idx by {
            assert(t1[i] == s1[i + 1] && t1[j] == s1[j + 1]);
        }
        assert forall|i: int, j: int| 0 <= i < j < t2.len() implies t2[i].item_idx
            >= t2[j].item_idx by {
            assert(t2[i] == s2[i + 1] && t2[j] == s2[j + 1]);
        }
        assert forall|k: nat| #[trigger] by_idx(t1, k) == by_idx(t2, k) by {
            let pred = |l: LineV| l.item_idx == k;
            lemma_filter_front(s1, pred);
            lemma_filter_front(s2, pred);
            if k == k1 {
                assert(by_idx(s1, k) == seq![s1[0]] + by_idx(t1, k));
                assert(by_idx(s2, k) == seq![s2[0]] + by_idx(t2, k));
                assert(by_idx(t1, k) =~= by_idx(s1, k).drop_first());
                assert(by_idx(t2, k) =~= by_idx(s2, k).drop_first());
            } else {
                assert(by_idx(t1, k) == by_idx(s1, k));
                assert(by_idx(t2, k) == by_idx(s2, k));
            }
        }
        lemma_reversed_unique(t1, t2);
        assert(s1.len() == s2.len());
        assert forall|i: int| 0 <= i < s1.len() implies s1[i] == s2[i] by {
            if i > 0 {
                assert(t1[i - 1] == s1[i]);
                assert(t2[i - 1] == s2[i]);
                assert(t1[i - 1] == t2[i - 1]);
            }
        }
        assert(s1 =~= s2);
    }
}

} // verus!
