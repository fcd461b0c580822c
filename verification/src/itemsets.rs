//! Level-wise frequent-itemset mining: candidate generation by joining,
//! anti-monotone pruning, support counting, and threshold filtering.

use vstd::prelude::*;

use crate::types::{
    frequent, increasing, level_contains, level_exact, seq_subset, threshold_met, tx_count,
    AprioriError, Fraction, FrequentItemsets, Inventory, ItemId, Itemset, ItemsetCounts,
    RawTransaction, RawTransactionId, Transaction,
};
use crate::types::{lemma_exact_is_shaped, lemma_tx_count_pos, lemma_tx_count_take_step};

verus! {

/// The deep view of a transaction list indexes to the views of its rows.
pub proof fn lemma_txs_deep_view(txs: Vec<Vec<ItemId>>)
    ensures
        txs.deep_view().len() == txs@.len(),
        forall|i: int| 0 <= i < txs@.len() ==> txs.deep_view()[i] == txs@[i]@,
{
    assert forall|i: int| 0 <= i < txs@.len() implies txs.deep_view()[i] == txs@[i]@ by {
        assert(txs.deep_view()[i] =~= txs@[i]@);
    }
}

/// Linear membership test for an item id.
fn contains_id(v: &Vec<ItemId>, x: ItemId) -> (r: bool)
    ensures
        r == v@.contains(x),
{
    let mut i: usize = 0;
    while i < v.len()
        invariant
            0 <= i <= v@.len(),
            forall|j: int| 0 <= j < i ==> v@[j] != x,
        decreases v@.len() - i,
    {
        if v[i] == x {
            return true;
        }
        i += 1;
    }
    false
}

/// Structural equality of two itemsets.
fn itemsets_eq(a: &Vec<ItemId>, b: &Vec<ItemId>) -> (r: bool)
    ensures
        r == (a@ == b@),
{
    if a.len() != b.len() {
        return false;
    }
    let mut i: usize = 0;
    while i < a.len()
        invariant
            a@.len() == b@.len(),
            0 <= i <= a@.len(),
            forall|j: int| 0 <= j < i ==> a@[j] == b@[j],
        decreases a@.len() - i,
    {
        if a[i] != b[i] {
            return false;
        }
        i += 1;
    }
    proof {
        assert(a@ =~= b@);
    }
    true
}

/// Does transaction `t` contain every item of `c`?
fn is_contained_in(c: &Vec<ItemId>, t: &Vec<ItemId>) -> (r: bool)
    ensures
        r == seq_subset(c@, t@),
{
    let mut i: usize = 0;
    while i < c.len()
        invariant
            0 <= i <= c@.len(),
            forall|j: int| 0 <= j < i ==> t@.contains(#[trigger] c@[j]),
        decreases c@.len() - i,
    {
        if !contains_id(t, c[i]) {
            return false;
        }
        i += 1;
    }
    true
}

/// Number of transactions that contain every item of `c`.
fn count_support(c: &Vec<ItemId>, txs: &Vec<Vec<ItemId>>) -> (r: u64)
    ensures
        r == tx_count(c@, txs.deep_view()),
{
    proof {
        lemma_txs_deep_view(*txs);
    }
    let ghost dv = txs.deep_view();
    let mut count: u64 = 0;
    let mut i: usize = 0;
    proof {
        assert(dv.take(0) =~= Seq::<Seq<ItemId>>::empty());
    }
    while i < txs.len()
        invariant
            0 <= i <= txs@.len(),
            dv == txs.deep_view(),
            dv.len() == txs@.len(),
            forall|j: int| 0 <= j < txs@.len() ==> dv[j] == txs@[j]@,
            count == tx_count(c@, dv.take(i as int)),
            count <= i,
        decreases txs@.len() - i,
    {
        let inside = is_contained_in(c, &txs[i]);
        proof {
            lemma_tx_count_take_step(c@, dv, i as int);
        }
        if inside {
            count += 1;
        }
        i += 1;
    }
    proof {
        assert(dv.take(txs@.len() as int) =~= dv);
    }
    count
}

/// The exact support test `count / n >= min_support`, by cross-multiplication.
fn meets_threshold(count: u64, n: usize, min_support: Fraction) -> (r: bool)
    ensures
        r == threshold_met(count as nat, n as nat, min_support),
{
    let a = count as u128;
    let b = min_support.den as u128;
    let p = min_support.num as u128;
    let q = n as u128;
    proof {
        assert(a * b <= (u64::MAX as u128) * (u64::MAX as u128)) by (nonlinear_arith)
            requires
                a <= u64::MAX as u128,
                b <= u64::MAX as u128,
        ;
        assert(p * q <= (u64::MAX as u128) * (u64::MAX as u128)) by (nonlinear_arith)
            requires
                p <= u64::MAX as u128,
                q <= u64::MAX as u128,
        ;
    }
    a * b >= p * q
}

/// Find the count stored for `c` in one level, if `c` is a key there.
pub(crate) fn level_find(l: &ItemsetCounts, c: &Vec<ItemId>) -> (r: Option<u64>)
    ensures
        r is Some <==> level_contains(l@, c@),
        r matches Some(v) ==> exists|i: int| 0 <= i < l@.len() && l@[i].0@ == c@ && (#[trigger] l@[i]).1 == v,
{
    let mut i: usize = 0;
    while i < l.len()
        invariant
            0 <= i <= l@.len(),
            forall|j: int| 0 <= j < i ==> (#[trigger] l@[j]).0@ != c@,
        decreases l@.len() - i,
    {
        if itemsets_eq(&l[i].0, c) {
            return Some(l[i].1);
        }
        i += 1;
    }
    None
}

/// Copy of `v` with the element at `j` removed.
fn remove_at(v: &Vec<ItemId>, j: usize) -> (r: Vec<ItemId>)
    requires
        j < v@.len(),
    ensures
        r@ == v@.remove(j as int),
{
    let mut r: Vec<ItemId> = Vec::new();
    let mut i: usize = 0;
    while i < v.len()
        invariant
            0 <= i <= v@.len(),
            j < v@.len(),
            i <= j ==> r@ == v@.take(i as int),
            i > j ==> r@.len() == i - 1 && (forall|m: int| 0 <= m < j ==> r@[m] == v@[m]) && (forall|m: int|
                j <= m < i - 1 ==> r@[m] == v@[m + 1]),
        decreases v@.len() - i,
    {
        if i != j {
            r.push(v[i]);
        }
        proof {
            if i + 1 <= j {
                assert(r@ =~= v@.take(i + 1));
            }
        }
        i += 1;
    }
    proof {
        assert(r@ =~= v@.remove(j as int));
    }
    r
}

/// The one-element itemset holding `x`.
pub open spec fn single(x: ItemId) -> Seq<ItemId> {
    seq![x]
}

/// `x` occurs in one of the first `bound` transactions.
pub open spec fn item_in_prefix(txs: Seq<Vec<ItemId>>, bound: int, x: ItemId) -> bool {
    exists|u: int, q: int| 0 <= u < bound && u < txs.len() && 0 <= q < txs[u]@.len() && txs[u]@[q] == x
}

/// All distinct item ids that occur in some transaction.
fn occurring_items(txs: &Vec<Vec<ItemId>>) -> (r: Vec<ItemId>)
    ensures
        forall|i: int, j: int| 0 <= i < j < r@.len() ==> r@[i] != r@[j],
        forall|x: ItemId| r@.contains(x) <==> item_in_prefix(txs@, txs@.len() as int, x),
{
    let mut items: Vec<ItemId> = Vec::new();
    let mut t: usize = 0;
    while t < txs.len()
        invariant
            0 <= t <= txs@.len(),
            forall|i: int, j: int| 0 <= i < j < items@.len() ==> items@[i] != items@[j],
            forall|i: int| 0 <= i < items@.len() ==> item_in_prefix(txs@, t as int, #[trigger] items@[i]),
            forall|u: int, q: int| 0 <= u < t && 0 <= q < txs@[u]@.len() ==> items@.contains(#[trigger] txs@[u]@[q]),
        decreases txs@.len() - t,
    {
        let mut q: usize = 0;
        while q < txs[t].len()
            invariant
                0 <= t < txs@.len(),
                0 <= q <= txs@[t as int]@.len(),
                forall|i: int, j: int| 0 <= i < j < items@.len() ==> items@[i] != items@[j],
                forall|i: int| 0 <= i < items@.len() ==> item_in_prefix(txs@, t + 1, #[trigger] items@[i]),
                forall|u: int, p: int| 0 <= u < t && 0 <= p < txs@[u]@.len() ==> items@.contains(#[trigger] txs@[u]@[p]),
                forall|p: int| 0 <= p < q ==> items@.contains(#[trigger] txs@[t as int]@[p]),
            decreases txs@[t as int]@.len() - q,
        {
            let x = txs[t][q];
            let ghost old_items = items@;
            if !contains_id(&items, x) {
                items.push(x);
                proof {
                    assert(items@[items@.len() - 1] == x);
                    assert(items@.contains(x));
                    assert forall|y: ItemId| old_items.contains(y) implies items@.contains(y) by {
                        let m = choose|m: int| 0 <= m < old_items.len() && old_items[m] == y;
                        assert(items@[m] == y);
                    }
                    assert forall|i: int, j: int| 0 <= i < j < items@.len() implies items@[i] != items@[j] by {
                        if j == items@.len() - 1 {
                            assert(old_items[i] == items@[i]);
                            assert(!old_items.contains(x));
                        }
                    }
                    assert forall|i: int| 0 <= i < items@.len()
                        implies item_in_prefix(txs@, t + 1, #[trigger] items@[i]) by {
                        if i == items@.len() - 1 {
                            assert(0 <= t < t + 1 && (t as int) < txs@.len() && 0 <= q < txs@[t as int]@.len()
                                && txs@[t as int]@[q as int] == x);
                        } else {
                            assert(old_items[i] == items@[i]);
                        }
                    }
                }
            }
            proof {
                assert(items@.contains(x));
                assert forall|p: int| 0 <= p < q + 1 implies items@.contains(#[trigger] txs@[t as int]@[p]) by {
                    if p < q {
                        assert(old_items.contains(txs@[t as int]@[p]));
                        if items@ != old_items {
                            let m = choose|m: int| 0 <= m < old_items.len() && old_items[m] == txs@[t as int]@[p];
                            assert(items@[m] == txs@[t as int]@[p]);
                        }
                    }
                }
                assert forall|u: int, p: int| 0 <= u < t && 0 <= p < txs@[u]@.len()
                    implies items@.contains(#[trigger] txs@[u]@[p]) by {
                    assert(old_items.contains(txs@[u]@[p]));
                    if items@ != old_items {
                        let m = choose|m: int| 0 <= m < old_items.len() && old_items[m] == txs@[u]@[p];
                        assert(items@[m] == txs@[u]@[p]);
                    }
                }
            }
            q += 1;
        }
        t += 1;
    }
    proof {
        assert forall|x: ItemId| items@.contains(x) <==> item_in_prefix(txs@, txs@.len() as int, x) by {
            if item_in_prefix(txs@, txs@.len() as int, x) {
                let (u, q) = choose|u: int, q: int|
                    0 <= u < txs@.len() && u < txs@.len() && 0 <= q < txs@[u]@.len() && txs@[u]@[q] == x;
                assert(items@.contains(txs@[u]@[q]));
            }
        }
    }
    items
}

/// The frequent itemsets of size 1, with exact counts.
fn first_level(txs: &Vec<Vec<ItemId>>, min_support: Fraction) -> (r: ItemsetCounts)
    ensures
        level_exact(r@, txs.deep_view(), min_support, 1),
{
    proof {
        lemma_txs_deep_view(*txs);
    }
    let ghost dv = txs.deep_view();
    let items = occurring_items(txs);
    let mut r: ItemsetCounts = Vec::new();
    let mut i: usize = 0;
    while i < items.len()
        invariant
            0 <= i <= items@.len(),
            dv == txs.deep_view(),
            dv.len() == txs@.len(),
            forall|u: int| 0 <= u < txs@.len() ==> dv[u] == txs@[u]@,
            forall|a: int, b: int| 0 <= a < b < items@.len() ==> items@[a] != items@[b],
            forall|x: ItemId| items@.contains(x) <==> item_in_prefix(txs@, txs@.len() as int, x),
            forall|m: int| 0 <= m < r@.len() ==> exists|j: int|
                0 <= j < i && (#[trigger] r@[m]).0@ == single(items@[j]),
            forall|m: int| 0 <= m < r@.len() ==> (#[trigger] r@[m]).1 == tx_count(r@[m].0@, dv)
                && threshold_met(r@[m].1 as nat, dv.len(), min_support),
            forall|j: int| 0 <= j < i && threshold_met(tx_count(#[trigger] single(items@[j]), dv), dv.len(), min_support)
                ==> level_contains(r@, single(items@[j])),
            forall|m: int, m2: int| 0 <= m < m2 < r@.len() ==> r@[m].0@ != r@[m2].0@,
        decreases items@.len() - i,
    {
        let x = items[i];
        let mut c: Vec<ItemId> = Vec::new();
        c.push(x);
        proof {
            assert(c@ =~= single(x));
        }
        let count = count_support(&c, txs);
        if meets_threshold(count, txs.len(), min_support) {
            let ghost old_r = r@;
            r.push((c, count));
            proof {
                assert forall|m: int, m2: int| 0 <= m < m2 < r@.len() implies r@[m].0@ != r@[m2].0@ by {
                    if m2 == r@.len() - 1 {
                        let j = choose|j: int| 0 <= j < i && (#[trigger] old_r[m]).0@ == single(items@[j]);
                        assert(old_r[m].0@[0] == items@[j]);
                        assert(items@[j] != items@[i as int]);
                    }
                }
                assert forall|j: int| 0 <= j < i + 1 && threshold_met(tx_count(#[trigger] single(items@[j]), dv), dv.len(), min_support)
                    implies level_contains(r@, single(items@[j])) by {
                    if j < i {
                        let m = choose|m: int| 0 <= m < old_r.len() && old_r[m].0@ == single(items@[j]);
                        assert(r@[m].0@ == single(items@[j]));
                    } else {
                        assert(r@[r@.len() - 1].0@ == single(items@[i as int]));
                    }
                }
            }
        }
        i += 1;
    }
    proof {
        assert forall|c: Seq<ItemId>| level_contains(r@, c) implies frequent(c, dv, min_support, 1) by {
            let m = choose|m: int| 0 <= m < r@.len() && r@[m].0@ == c;
            let j = choose|j: int| 0 <= j < items@.len() && (#[trigger] r@[m]).0@ == single(items@[j]);
            let x = items@[j];
            assert(items@.contains(x));
            let (u, q) = choose|u: int, q: int|
                0 <= u < txs@.len() && u < txs@.len() && 0 <= q < txs@[u]@.len() && txs@[u]@[q] == x;
            assert(dv[u].contains(x));
            assert(seq_subset(c, dv[u]));
            lemma_tx_count_pos(c, dv);
        }
        assert forall|c: Seq<ItemId>| frequent(c, dv, min_support, 1) implies level_contains(r@, c) by {
            lemma_tx_count_pos(c, dv);
            let t = choose|t: int| 0 <= t < dv.len() && seq_subset(c, #[trigger] dv[t]);
            assert(dv[t].contains(c[0]));
            let q = choose|q: int| 0 <= q < dv[t].len() && dv[t][q] == c[0];
            assert(txs@[t]@[q] == c[0]);
            assert(0 <= t < txs@.len() && t < txs@.len() && 0 <= q < txs@[t]@.len() && txs@[t]@[q] == c[0]);
            assert(item_in_prefix(txs@, txs@.len() as int, c[0]));
            assert(items@.contains(c[0]));
            let j = choose|j: int| 0 <= j < items@.len() && items@[j] == c[0];
            assert(c =~= single(items@[j]));
            assert(threshold_met(tx_count(single(items@[j]), dv), dv.len(), min_support));
        }
    }
    r
}

/// An itemset list holds `c`.
pub open spec fn cand_contains(l: Seq<Itemset>, c: Seq<ItemId>) -> bool {
    exists|i: int| 0 <= i < l.len() && l[i]@ == c
}

/// Copy of an itemset.
pub(crate) fn clone_itemset(v: &Vec<ItemId>) -> (r: Vec<ItemId>)
    ensures
        r@ == v@,
{
    let mut r: Vec<ItemId> = Vec::new();
    let mut i: usize = 0;
    while i < v.len()
        invariant
            0 <= i <= v@.len(),
            r@ == v@.take(i as int),
        decreases v@.len() - i,
    {
        r.push(v[i]);
        proof {
            assert(r@ =~= v@.take(i + 1));
        }
        i += 1;
    }
    proof {
        assert(r@ =~= v@);
    }
    r
}

/// Linear membership test on a candidate list.
fn contains_itemset(l: &Vec<Itemset>, c: &Vec<ItemId>) -> (r: bool)
    ensures
        r == cand_contains(l@, c@),
{
    let mut i: usize = 0;
    while i < l.len()
        invariant
            0 <= i <= l@.len(),
            forall|j: int| 0 <= j < i ==> (#[trigger] l@[j])@ != c@,
        decreases l@.len() - i,
    {
        if itemsets_eq(&l[i], c) {
            return true;
        }
        i += 1;
    }
    false
}

/// Do `a` and `b` agree on their first `m` elements?
fn prefix_eq(a: &Vec<ItemId>, b: &Vec<ItemId>, m: usize) -> (r: bool)
    requires
        m <= a@.len(),
        m <= b@.len(),
    ensures
        r == (a@.take(m as int) == b@.take(m as int)),
{
    let mut i: usize = 0;
    while i < m
        invariant
            0 <= i <= m,
            m <= a@.len(),
            m <= b@.len(),
            forall|j: int| 0 <= j < i ==> a@[j] == b@[j],
        decreases m - i,
    {
        if a[i] != b[i] {
            proof {
                assert(a@.take(m as int)[i as int] != b@.take(m as int)[i as int]);
            }
            return false;
        }
        i += 1;
    }
    proof {
        assert(a@.take(m as int) =~= b@.take(m as int));
    }
    true
}

/// The join step: all size-`k` candidates formed from two frequent
/// `(k-1)`-itemsets that share their first `k-2` items.
fn join_candidates(prev: &ItemsetCounts, k: usize) -> (r: Vec<Itemset>)
    requires
        2 <= k,
        forall|i: int| 0 <= i < prev@.len() ==> (#[trigger] prev@[i]).0@.len() == k - 1 && increasing(prev@[i].0@),
    ensures
        forall|i: int| 0 <= i < r@.len() ==> (#[trigger] r@[i])@.len() == k && increasing(r@[i]@),
        forall|i: int, j: int| 0 <= i < j < r@.len() ==> r@[i]@ != r@[j]@,
        forall|a: int, b: int|
            0 <= a < prev@.len() && 0 <= b < prev@.len()
                && (#[trigger] prev@[a]).0@.take(k - 2) == (#[trigger] prev@[b]).0@.take(k - 2)
                && prev@[a].0@[k - 2] < prev@[b].0@[k - 2]
                ==> cand_contains(r@, prev@[a].0@.push(prev@[b].0@[k - 2])),
{
    let mut r: Vec<Itemset> = Vec::new();
    let mut a: usize = 0;
    while a < prev.len()
        invariant
            0 <= a <= prev@.len(),
            2 <= k,
            forall|i: int| 0 <= i < prev@.len() ==> (#[trigger] prev@[i]).0@.len() == k - 1 && increasing(prev@[i].0@),
            forall|i: int| 0 <= i < r@.len() ==> (#[trigger] r@[i])@.len() == k && increasing(r@[i]@),
            forall|i: int, j: int| 0 <= i < j < r@.len() ==> r@[i]@ != r@[j]@,
            forall|x: int, y: int|
                0 <= x < a && 0 <= y < prev@.len()
                    && (#[trigger] prev@[x]).0@.take(k - 2) == (#[trigger] prev@[y]).0@.take(k - 2)
                    && prev@[x].0@[k - 2] < prev@[y].0@[k - 2]
                    ==> cand_contains(r@, prev@[x].0@.push(prev@[y].0@[k - 2])),
        decreases prev@.len() - a,
    {
        let mut b: usize = 0;
        while b < prev.len()
            invariant
                0 <= a < prev@.len(),
                0 <= b <= prev@.len(),
                2 <= k,
                forall|i: int| 0 <= i < prev@.len() ==> (#[trigger] prev@[i]).0@.len() == k - 1 && increasing(prev@[i].0@),
                forall|i: int| 0 <= i < r@.len() ==> (#[trigger] r@[i])@.len() == k && increasing(r@[i]@),
                forall|i: int, j: int| 0 <= i < j < r@.len() ==> r@[i]@ != r@[j]@,
                forall|x: int, y: int|
                    0 <= x < a && 0 <= y < prev@.len()
                        && (#[trigger] prev@[x]).0@.take(k - 2) == (#[trigger] prev@[y]).0@.take(k - 2)
                        && prev@[x].0@[k - 2] < prev@[y].0@[k - 2]
                        ==> cand_contains(r@, prev@[x].0@.push(prev@[y].0@[k - 2])),
                forall|y: int|
                    0 <= y < b
                        && (#[trigger] prev@[a as int]).0@.take(k - 2) == (#[trigger] prev@[y]).0@.take(k - 2)
                        && prev@[a as int].0@[k - 2] < prev@[y].0@[k - 2]
                        ==> cand_contains(r@, prev@[a as int].0@.push(prev@[y].0@[k - 2])),
            decreases prev@.len() - b,
        {
            let ghost old_r = r@;
            let pa = &prev[a].0;
            let pb = &prev[b].0;
            let ghost join_c = pa@.push(pb@[k - 2]);
            if prefix_eq(pa, pb, k - 2) && pa[k - 2] < pb[k - 2] {
                let mut c = clone_itemset(pa);
                c.push(pb[k - 2]);
                proof {
                    assert(c@ == join_c);
                    assert forall|i: int, j: int| 0 <= i < j < c@.len() implies c@[i] < c@[j] by {
                        if j == c@.len() - 1 {
                            if i < k - 2 {
                                assert(pa@.take(k - 2)[i] == pb@.take(k - 2)[i]);
                                assert(pa@[i] == pb@[i]);
                                assert(pb@[i] < pb@[k - 2]);
                            }
                        }
                    }
                }
                if !contains_itemset(&r, &c) {
                    r.push(c);
                    proof {
                        assert forall|i: int, j: int| 0 <= i < j < r@.len() implies r@[i]@ != r@[j]@ by {
                            if j == r@.len() - 1 {
                                assert(!cand_contains(old_r, r@[j]@));
                                assert(old_r[i]@ == r@[i]@);
                            }
                        }
                        assert(r@[r@.len() - 1]@ == join_c);
                        assert(cand_contains(r@, join_c));
                    }
                } else {
                    proof {
                        assert(cand_contains(r@, join_c));
                    }
                }
            }
            proof {
                assert forall|cc: Seq<ItemId>| cand_contains(old_r, cc) implies cand_contains(r@, cc) by {
                    let i = choose|i: int| 0 <= i < old_r.len() && old_r[i]@ == cc;
                    assert(r@[i]@ == cc);
                }
                assert forall|x: int, y: int|
                    0 <= x < a && 0 <= y < prev@.len()
                        && (#[trigger] prev@[x]).0@.take(k - 2) == (#[trigger] prev@[y]).0@.take(k - 2)
                        && prev@[x].0@[k - 2] < prev@[y].0@[k - 2]
                        implies cand_contains(r@, prev@[x].0@.push(prev@[y].0@[k - 2])) by {
                    assert(cand_contains(old_r, prev@[x].0@.push(prev@[y].0@[k - 2])));
                }
                assert forall|y: int|
                    0 <= y < b + 1
                        && (#[trigger] prev@[a as int]).0@.take(k - 2) == (#[trigger] prev@[y]).0@.take(k - 2)
                        && prev@[a as int].0@[k - 2] < prev@[y].0@[k - 2]
                        implies cand_contains(r@, prev@[a as int].0@.push(prev@[y].0@[k - 2])) by {
                    if y < b {
                        assert(cand_contains(old_r, prev@[a as int].0@.push(prev@[y].0@[k - 2])));
                    } else {
                        assert(prev@[a as int].0@.push(prev@[y].0@[k - 2]) == join_c);
                    }
                }
            }
            b += 1;
        }
        a += 1;
    }
    r
}

/// Anti-monotone pruning: keep only the candidates all of whose one-smaller
/// subsets are present in the previous level.
fn prune_candidates(cands: &Vec<Itemset>, prev: &ItemsetCounts, k: usize) -> (r: Vec<Itemset>)
    requires
        2 <= k,
        forall|i: int| 0 <= i < cands@.len() ==> (#[trigger] cands@[i])@.len() == k && increasing(cands@[i]@),
        forall|i: int, j: int| 0 <= i < j < cands@.len() ==> cands@[i]@ != cands@[j]@,
    ensures
        forall|i: int| 0 <= i < r@.len() ==> (#[trigger] r@[i])@.len() == k && increasing(r@[i]@),
        forall|i: int, j: int| 0 <= i < j < r@.len() ==> r@[i]@ != r@[j]@,
        forall|c: Seq<ItemId>| #[trigger] cand_contains(r@, c) <==> cand_contains(cands@, c)
            && (forall|j: int| 0 <= j < c.len() ==> level_contains(prev@, #[trigger] c.remove(j))),
{
    let mut r: Vec<Itemset> = Vec::new();
    let mut i: usize = 0;
    while i < cands.len()
        invariant
            0 <= i <= cands@.len(),
            2 <= k,
            forall|m: int| 0 <= m < cands@.len() ==> (#[trigger] cands@[m])@.len() == k && increasing(cands@[m]@),
            forall|m: int, j: int| 0 <= m < j < cands@.len() ==> cands@[m]@ != cands@[j]@,
            forall|m: int| 0 <= m < r@.len() ==> (#[trigger] r@[m])@.len() == k && increasing(r@[m]@),
            forall|m: int, j: int| 0 <= m < j < r@.len() ==> r@[m]@ != r@[j]@,
            forall|c: Seq<ItemId>| #[trigger] cand_contains(r@, c) <==> cand_contains(cands@.take(i as int), c)
                && (forall|j: int| 0 <= j < c.len() ==> level_contains(prev@, #[trigger] c.remove(j))),
        decreases cands@.len() - i,
    {
        let ghost old_r = r@;
        let cand = &cands[i];
        let mut all = true;
        let mut j: usize = 0;
        while j < k
            invariant
                0 <= j <= k,
                0 <= i < cands@.len(),
                cand == &cands[i as int],
                cand@.len() == k,
                all <==> (forall|j2: int| 0 <= j2 < j ==> level_contains(prev@, #[trigger] cand@.remove(j2))),
            decreases k - j,
        {
            let sub = remove_at(cand, j);
            if level_find(prev, &sub).is_none() {
                all = false;
            }
            j += 1;
        }
        if all {
            let c = clone_itemset(cand);
            r.push(c);
            proof {
                assert forall|m: int, j2: int| 0 <= m < j2 < r@.len() implies r@[m]@ != r@[j2]@ by {
                    if j2 == r@.len() - 1 {
                        assert(cand_contains(old_r, old_r[m]@));
                        let m2 = choose|m2: int| 0 <= m2 < i && cands@.take(i as int)[m2]@ == old_r[m]@;
                        assert(cands@[m2]@ == old_r[m]@);
                        assert(cands@[m2]@ != cands@[i as int]@);
                        assert(r@[m]@ == old_r[m]@);
                    }
                }
            }
        }
        proof {
            assert forall|c: Seq<ItemId>| #[trigger] cand_contains(r@, c) <==> cand_contains(cands@.take(i + 1), c)
                && (forall|j2: int| 0 <= j2 < c.len() ==> level_contains(prev@, #[trigger] c.remove(j2))) by {
                if cand_contains(r@, c) {
                    let m = choose|m: int| 0 <= m < r@.len() && r@[m]@ == c;
                    if m < old_r.len() {
                        assert(cand_contains(old_r, c));
                        let m2 = choose|m2: int| 0 <= m2 < i && cands@.take(i as int)[m2]@ == c;
                        assert(cands@.take(i + 1)[m2]@ == c);
                        assert(cand_contains(cands@.take(i + 1), c));
                    } else {
                        assert(c == cands@[i as int]@);
                        assert(cands@.take(i + 1)[i as int]@ == c);
                        assert(cand_contains(cands@.take(i + 1), c));
                    }
                }
                if cand_contains(cands@.take(i + 1), c)
                    && (forall|j2: int| 0 <= j2 < c.len() ==> level_contains(prev@, #[trigger] c.remove(j2))) {
                    let m = choose|m: int| 0 <= m < i + 1 && (#[trigger] cands@.take(i + 1)[m])@ == c;
                    if m < i {
                        assert(cands@.take(i as int)[m]@ == c);
                        assert(cand_contains(cands@.take(i as int), c));
                        assert(cand_contains(old_r, c));
                        let m2 = choose|m2: int| 0 <= m2 < old_r.len() && old_r[m2]@ == c;
                        assert(r@[m2]@ == c);
                    } else {
                        assert(c == cands@[i as int]@);
                        assert(r@[r@.len() - 1]@ == c);
                    }
                }
            }
        }
        i += 1;
    }
    proof {
        assert(cands@.take(cands@.len() as int) =~= cands@);
    }
    r
}

/// Count the support of every candidate and keep those meeting the threshold.
fn count_and_filter(cands: &Vec<Itemset>, txs: &Vec<Vec<ItemId>>, min_support: Fraction, k: usize) -> (r: ItemsetCounts)
    requires
        1 <= k,
        forall|i: int| 0 <= i < cands@.len() ==> (#[trigger] cands@[i])@.len() == k && increasing(cands@[i]@),
        forall|i: int, j: int| 0 <= i < j < cands@.len() ==> cands@[i]@ != cands@[j]@,
    ensures
        forall|m: int| 0 <= m < r@.len() ==> (#[trigger] r@[m]).1 == tx_count(r@[m].0@, txs.deep_view()),
        forall|m: int, j: int| 0 <= m < j < r@.len() ==> r@[m].0@ != r@[j].0@,
        forall|c: Seq<ItemId>| #[trigger] level_contains(r@, c) <==> cand_contains(cands@, c)
            && threshold_met(tx_count(c, txs.deep_view()), txs.deep_view().len(), min_support),
{
    proof {
        lemma_txs_deep_view(*txs);
    }
    let ghost dv = txs.deep_view();
    let mut r: ItemsetCounts = Vec::new();
    let mut i: usize = 0;
    while i < cands.len()
        invariant
            0 <= i <= cands@.len(),
            dv == txs.deep_view(),
            dv.len() == txs@.len(),
            forall|m: int| 0 <= m < cands@.len() ==> (#[trigger] cands@[m])@.len() == k && increasing(cands@[m]@),
            forall|m: int, j: int| 0 <= m < j < cands@.len() ==> cands@[m]@ != cands@[j]@,
            forall|m: int| 0 <= m < r@.len() ==> (#[trigger] r@[m]).1 == tx_count(r@[m].0@, dv),
            forall|m: int, j: int| 0 <= m < j < r@.len() ==> r@[m].0@ != r@[j].0@,
            forall|c: Seq<ItemId>| #[trigger] level_contains(r@, c) <==> cand_contains(cands@.take(i as int), c)
                && threshold_met(tx_count(c, dv), dv.len(), min_support),
        decreases cands@.len() - i,
    {
        let ghost old_r = r@;
        let cand = &cands[i];
        let count = count_support(cand, txs);
        if meets_threshold(count, txs.len(), min_support) {
            let c = clone_itemset(cand);
            r.push((c, count));
            proof {
                assert forall|m: int, j: int| 0 <= m < j < r@.len() implies r@[m].0@ != r@[j].0@ by {
                    if j == r@.len() - 1 {
                        assert(level_contains(old_r, old_r[m].0@));
                        let m2 = choose|m2: int| 0 <= m2 < i && cands@.take(i as int)[m2]@ == old_r[m].0@;
                        assert(cands@[m2]@ == old_r[m].0@);
                        assert(cands@[m2]@ != cands@[i as int]@);
                        assert(r@[m].0@ == old_r[m].0@);
                    }
                }
            }
        }
        proof {
            assert forall|c: Seq<ItemId>| #[trigger] level_contains(r@, c) <==> cand_contains(cands@.take(i + 1), c)
                && threshold_met(tx_count(c, dv), dv.len(), min_support) by {
                if level_contains(r@, c) {
                    let m = choose|m: int| 0 <= m < r@.len() && r@[m].0@ == c;
                    if m < old_r.len() {
                        assert(level_contains(old_r, c));
                        let m2 = choose|m2: int| 0 <= m2 < i && cands@.take(i as int)[m2]@ == c;
                        assert(cands@.take(i + 1)[m2]@ == c);
                        assert(cand_contains(cands@.take(i + 1), c));
                    } else {
                        assert(c == cands@[i as int]@);
                        assert(cands@.take(i + 1)[i as int]@ == c);
                        assert(cand_contains(cands@.take(i + 1), c));
                        assert(threshold_met(tx_count(c, dv), dv.len(), min_support));
                    }
                }
                if cand_contains(cands@.take(i + 1), c) && threshold_met(tx_count(c, dv), dv.len(), min_support) {
                    let m = choose|m: int| 0 <= m < i + 1 && (#[trigger] cands@.take(i + 1)[m])@ == c;
                    if m < i {
                        assert(cands@.take(i as int)[m]@ == c);
                        assert(cand_contains(cands@.take(i as int), c));
                        assert(level_contains(old_r, c));
                        let m2 = choose|m2: int| 0 <= m2 < old_r.len() && old_r[m2].0@ == c;
                        assert(r@[m2].0@ == c);
                        assert(level_contains(r@, c));
                    } else {
                        assert(c == cands@[i as int]@);
                        assert(r@[r@.len() - 1].0@ == c);
                        assert(level_contains(r@, c));
                    }
                }
            }
        }
        i += 1;
    }
    proof {
        assert(cands@.take(cands@.len() as int) =~= cands@);
    }
    r
}

/// One level-wise step: from the exact level of size `k - 1`, produce the
/// exact level of size `k` (join, prune, count, filter).
fn next_level(prev: &ItemsetCounts, txs: &Vec<Vec<ItemId>>, min_support: Fraction, k: usize) -> (r: ItemsetCounts)
    requires
        2 <= k,
        level_exact(prev@, txs.deep_view(), min_support, (k - 1) as nat),
    ensures
        level_exact(r@, txs.deep_view(), min_support, k as nat),
{
    let ghost dv = txs.deep_view();
    proof {
        assert forall|i: int| 0 <= i < prev@.len()
            implies (#[trigger] prev@[i]).0@.len() == k - 1 && increasing(prev@[i].0@) by {
            assert(level_contains(prev@, prev@[i].0@));
            assert(frequent(prev@[i].0@, dv, min_support, (k - 1) as nat));
        }
    }
    let cands = join_candidates(prev, k);
    let pruned = prune_candidates(&cands, prev, k);
    let r = count_and_filter(&pruned, txs, min_support, k);
    proof {
        assert forall|c: Seq<ItemId>|
            #![trigger level_contains(r@, c)]
            #![trigger frequent(c, dv, min_support, k as nat)]
            level_contains(r@, c) <==> frequent(c, dv, min_support, k as nat) by {
            if level_contains(r@, c) {
                assert(cand_contains(pruned@, c));
                assert(threshold_met(tx_count(c, dv), dv.len(), min_support));
                let m = choose|m: int| 0 <= m < pruned@.len() && pruned@[m]@ == c;
                assert(c.len() == k && increasing(c));
                assert forall|j: int| 0 <= j < c.len()
                    implies frequent(#[trigger] c.remove(j), dv, min_support, (k - 1) as nat) by {
                    assert(level_contains(prev@, c.remove(j)));
                }
                assert(frequent(c, dv, min_support, k as nat));
            }
            if frequent(c, dv, min_support, k as nat) {
                let ghost a = c.remove(k - 1);
                let ghost b = c.remove(k - 2);
                assert(frequent(a, dv, min_support, (k - 1) as nat));
                assert(frequent(b, dv, min_support, (k - 1) as nat));
                assert(level_contains(prev@, a));
                assert(level_contains(prev@, b));
                let ia = choose|ia: int| 0 <= ia < prev@.len() && prev@[ia].0@ == a;
                let ib = choose|ib: int| 0 <= ib < prev@.len() && prev@[ib].0@ == b;
                assert(a.take(k - 2) =~= b.take(k - 2));
                assert(a[k - 2] == c[k - 2] && b[k - 2] == c[k - 1]);
                assert(c[k - 2] < c[k - 1]);
                assert(cand_contains(cands@, prev@[ia].0@.push(prev@[ib].0@[k - 2])));
                assert(a.push(b[k - 2]) =~= c);
                assert(cand_contains(cands@, c));
                assert forall|j: int| 0 <= j < c.len()
                    implies level_contains(prev@, #[trigger] c.remove(j)) by {
                    assert(frequent(c.remove(j), dv, min_support, (k - 1) as nat));
                }
                assert(cand_contains(pruned@, c));
                assert(level_contains(r@, c));
            }
        }
    }
    r
}

/// Generate the exact table of frequent itemsets from pre-interned
/// transactions.
///
/// Fails exactly when `max_length` is zero or `min_support` has a zero
/// denominator; on success the returned table is the complete level-wise
/// mining result (see `FrequentItemsets::table_exact`).
pub fn generate_frequent_itemsets_id(raw_transactions: Vec<RawTransactionId>, min_support: Fraction, max_length: usize) -> (r: Result<FrequentItemsets, AprioriError>)
    ensures
        r is Ok <==> max_length >= 1 && min_support.den >= 1,
        r matches Err(e) ==> (e == AprioriError::ZeroMaxLength <==> max_length == 0),
        r matches Ok(table) ==> table.table_exact(raw_transactions.deep_view(), min_support, max_length as nat),
        r matches Ok(table) ==> table.table_shaped(),
{
    if max_length == 0 {
        return Err(AprioriError::ZeroMaxLength);
    }
    if min_support.den == 0 {
        return Err(AprioriError::ZeroDenominator);
    }
    let ghost dv = raw_transactions.deep_view();
    let mut levels: Vec<ItemsetCounts> = Vec::new();
    let l1 = first_level(&raw_transactions, min_support);
    if l1.len() == 0 {
        let table = FrequentItemsets { levels };
        proof {
            assert forall|c: Seq<ItemId>| !(#[trigger] frequent(c, dv, min_support, 1)) by {
                if frequent(c, dv, min_support, 1) {
                    assert(level_contains(l1@, c));
                }
            }
            lemma_exact_is_shaped(table, dv, min_support, max_length as nat);
        }
        return Ok(table);
    }
    levels.push(l1);
    let mut k: usize = 1;
    while k < max_length
        invariant
            1 <= k <= max_length,
            min_support.den >= 1,
            levels@.len() == k,
            dv == raw_transactions.deep_view(),
            forall|lv: int| 0 <= lv < k ==> level_exact((#[trigger] levels@[lv])@, dv, min_support, (lv + 1) as nat),
            forall|lv: int| 0 <= lv < k ==> (#[trigger] levels@[lv])@.len() >= 1,
        decreases max_length - k,
    {
        let prev = &levels[k - 1];
        let next = next_level(prev, &raw_transactions, min_support, k + 1);
        if next.len() == 0 {
            let table = FrequentItemsets { levels };
            proof {
                assert forall|c: Seq<ItemId>| !(#[trigger] frequent(c, dv, min_support, (k + 1) as nat)) by {
                    if frequent(c, dv, min_support, (k + 1) as nat) {
                        assert(level_contains(next@, c));
                    }
                }
                assert(table.table_exact(dv, min_support, max_length as nat));
                lemma_exact_is_shaped(table, dv, min_support, max_length as nat);
            }
            return Ok(table);
        }
        levels.push(next);
        k += 1;
    }
    let table = FrequentItemsets { levels };
    proof {
        assert(table.table_exact(dv, min_support, max_length as nat));
        lemma_exact_is_shaped(table, dv, min_support, max_length as nat);
    }
    Ok(table)
}

/// Some id in `it` resolves through `inv` to the token `tok`.
pub open spec fn resolves(it: Seq<ItemId>, inv: Seq<String>, tok: Seq<char>) -> bool {
    exists|j: int| 0 <= j < it.len() && (#[trigger] it[j]) < inv.len() && inv[it[j] as int]@ == tok
}

/// The id names a token that occurs in the raw transaction `rawt`.
pub open spec fn id_used(rawt: Seq<String>, inv: Seq<String>, id: ItemId) -> bool {
    id < inv.len() && exists|x: int| 0 <= x < rawt.len() && (#[trigger] rawt[x])@ == inv[id as int]@
}

/// `it` holds exactly the ids of the tokens of `rawt`, in ascending order,
/// resolved through the inventory `inv`.
pub open spec fn interned_tx_ok(rawt: Seq<String>, it: Seq<ItemId>, inv: Seq<String>) -> bool {
    &&& increasing(it)
    &&& forall|x: int| 0 <= x < rawt.len() ==> resolves(it, inv, (#[trigger] rawt[x])@)
    &&& forall|j: int| 0 <= j < it.len() ==> id_used(rawt, inv, #[trigger] it[j])
}

/// One token appended to the inventory if it is not already present.
pub open spec fn fold_token(inv: Seq<Seq<char>>, tok: Seq<char>) -> Seq<Seq<char>> {
    if inv.contains(tok) {
        inv
    } else {
        inv.push(tok)
    }
}

/// The inventory after scanning one raw transaction left to right.
pub open spec fn fold_tx(inv: Seq<Seq<char>>, rawt: Seq<String>) -> Seq<Seq<char>>
    decreases rawt.len(),
{
    if rawt.len() == 0 {
        inv
    } else {
        fold_token(fold_tx(inv, rawt.drop_last()), rawt.last()@)
    }
}

/// The inventory built by one scan of the raw transactions in order: each
/// distinct token is appended at its first encounter, so ids are dense,
/// zero-based, and in first-seen order.
pub open spec fn fold_inventory(raw: Seq<RawTransaction>) -> Seq<Seq<char>>
    decreases raw.len(),
{
    if raw.len() == 0 {
        Seq::empty()
    } else {
        fold_tx(fold_inventory(raw.drop_last()), raw.last()@)
    }
}

/// The character sequences of the inventory's tokens, in order.
pub open spec fn token_views(inv: Seq<String>) -> Seq<Seq<char>> {
    Seq::new(inv.len(), |i: int| inv[i]@)
}

/// The interning contract: one interned transaction per raw transaction,
/// distinct inventory tokens, every inventory token taken from the input,
/// and the inventory exactly the first-encounter scan of the input.
pub open spec fn intern_ok(raw: Seq<RawTransaction>, itxs: Seq<Transaction>, inv: Seq<String>) -> bool {
    &&& itxs.len() == raw.len()
    &&& forall|i: int, j: int| 0 <= i < j < inv.len() ==> inv[i]@ != inv[j]@
    &&& forall|t: int| 0 <= t < raw.len() ==> interned_tx_ok((#[trigger] raw[t])@, itxs[t]@, inv)
    &&& forall|id: int| 0 <= id < inv.len() ==> token_in_prefix(raw, raw.len() as int, (#[trigger] inv[id])@)
    &&& token_views(inv) == fold_inventory(raw)
}

/// Look a token up in the inventory.
fn find_token(inv: &Vec<String>, tok: &String) -> (r: Option<usize>)
    ensures
        r matches Some(id) ==> id < inv@.len() && inv@[id as int]@ == tok@,
        r is None ==> forall|i: int| 0 <= i < inv@.len() ==> (#[trigger] inv@[i])@ != tok@,
{
    let mut i: usize = 0;
    while i < inv.len()
        invariant
            0 <= i <= inv@.len(),
            forall|j: int| 0 <= j < i ==> (#[trigger] inv@[j])@ != tok@,
        decreases inv@.len() - i,
    {
        if inv[i].eq(tok) {
            return Some(i);
        }
        i += 1;
    }
    None
}

/// The new id list holds exactly the old ids plus `x`.
pub open spec fn ids_with(new: Seq<ItemId>, old_ids: Seq<ItemId>, x: ItemId) -> bool {
    forall|y: ItemId| #[trigger] new.contains(y) <==> old_ids.contains(y) || y == x
}

/// Insert an id into a sorted transaction, keeping ascending order; a
/// duplicate id is dropped.
fn insert_sorted(it: &mut Vec<ItemId>, x: ItemId)
    requires
        increasing(old(it)@),
    ensures
        increasing(final(it)@),
        ids_with(final(it)@, old(it)@, x),
{
    let ghost orig = it@;
    let mut p: usize = 0;
    while p < it.len() && it[p] < x
        invariant
            0 <= p <= it@.len(),
            it@ == orig,
            increasing(it@),
            forall|j: int| 0 <= j < p ==> it@[j] < x,
        decreases it@.len() - p,
    {
        p += 1;
    }
    if p < it.len() && it[p] == x {
        proof {
            assert(it@.contains(x));
            assert forall|y: ItemId| #[trigger] it@.contains(y) <==> orig.contains(y) || y == x by {}
        }
        return;
    }
    proof {
        assert(p < orig.len() ==> orig[p as int] > x);
    }
    it.insert(p, x);
    proof {
        assert(it@ == orig.insert(p as int, x));
        assert forall|i: int, j: int| 0 <= i < j < it@.len() implies it@[i] < it@[j] by {
            if j < p {
            } else if i < p && j == p {
                assert(it@[i] == orig[i] && it@[j] == x);
            } else if i < p && j > p {
                assert(it@[i] == orig[i] && it@[j] == orig[j - 1]);
            } else if i == p {
                assert(it@[i] == x && it@[j] == orig[j - 1]);
                assert(orig[j - 1] > x);
            } else {
                assert(it@[i] == orig[i - 1] && it@[j] == orig[j - 1]);
            }
        }
        assert forall|y: ItemId| #[trigger] it@.contains(y) <==> orig.contains(y) || y == x by {
            if it@.contains(y) {
                let i = choose|i: int| 0 <= i < it@.len() && it@[i] == y;
                if i < p {
                    assert(orig[i] == y);
                    assert(orig.contains(y));
                } else if i > p {
                    assert(orig[i - 1] == y);
                    assert(orig.contains(y));
                }
            }
            if orig.contains(y) {
                let i = choose|i: int| 0 <= i < orig.len() && orig[i] == y;
                if i < p {
                    assert(it@[i] == y);
                } else {
                    assert(it@[i + 1] == y);
                }
                assert(it@.contains(y));
            }
            if y == x {
                assert(it@[p as int] == x);
                assert(it@.contains(y));
            }
        }
    }
}

/// The inventory holds a token whose characters are `tok`.
pub open spec fn has_token(inv: Seq<String>, tok: Seq<char>) -> bool {
    exists|id: int| 0 <= id < inv.len() && inv[id]@ == tok
}

proof fn lemma_has_token_push(inv: Seq<String>, s: String, tok: Seq<char>)
    requires
        has_token(inv, tok),
    ensures
        has_token(inv.push(s), tok),
{
    let id = choose|id: int| 0 <= id < inv.len() && inv[id]@ == tok;
    assert(inv.push(s)[id]@ == tok);
}

/// `tok` occurs in one of the first `bound` raw transactions.
pub open spec fn token_in_prefix(raw: Seq<RawTransaction>, bound: int, tok: Seq<char>) -> bool {
    exists|t: int, x: int| 0 <= t < bound && t < raw.len() && 0 <= x < raw[t]@.len() && raw[t]@[x]@ == tok
}

proof fn lemma_token_in_prefix_mono(raw: Seq<RawTransaction>, b1: int, b2: int, tok: Seq<char>)
    requires
        b1 <= b2,
        token_in_prefix(raw, b1, tok),
    ensures
        token_in_prefix(raw, b2, tok),
{
    let (t, x) = choose|t: int, x: int|
        0 <= t < b1 && t < raw.len() && 0 <= x < raw[t]@.len() && raw[t]@[x]@ == tok;
    assert(0 <= t < b2 && t < raw.len() && 0 <= x < raw[t]@.len() && raw[t]@[x]@ == tok);
}

/// Collect every distinct token of the input, in first-seen order (the
/// inventory is exactly the `fold_inventory` scan).
fn build_inventory(raw: &Vec<RawTransaction>) -> (inv: Inventory)
    ensures
        forall|i: int, j: int| 0 <= i < j < inv@.len() ==> (#[trigger] inv@[i])@ != (#[trigger] inv@[j])@,
        forall|t: int, x: int| 0 <= t < raw@.len() && 0 <= x < raw@[t]@.len()
            ==> has_token(inv@, (#[trigger] raw@[t]@[x])@),
        forall|id: int| 0 <= id < inv@.len() ==> token_in_prefix(raw@, raw@.len() as int, (#[trigger] inv@[id])@),
        token_views(inv@) == fold_inventory(raw@),
{
    let mut inv: Vec<String> = Vec::new();
    let mut t: usize = 0;
    proof {
        assert(raw@.take(0) =~= Seq::<RawTransaction>::empty());
        assert(token_views(inv@) =~= fold_inventory(raw@.take(0)));
    }
    while t < raw.len()
        invariant
            0 <= t <= raw@.len(),
            forall|i: int, j: int| 0 <= i < j < inv@.len() ==> (#[trigger] inv@[i])@ != (#[trigger] inv@[j])@,
            forall|u: int, x: int| 0 <= u < t && 0 <= x < raw@[u]@.len()
                ==> has_token(inv@, (#[trigger] raw@[u]@[x])@),
            forall|id: int| 0 <= id < inv@.len() ==> token_in_prefix(raw@, t as int, (#[trigger] inv@[id])@),
            token_views(inv@) == fold_inventory(raw@.take(t as int)),
        decreases raw@.len() - t,
    {
        let rawt = &raw[t];
        let ghost base = fold_inventory(raw@.take(t as int));
        let mut x: usize = 0;
        proof {
            assert forall|id: int| 0 <= id < inv@.len()
                implies token_in_prefix(raw@, t + 1, (#[trigger] inv@[id])@) by {
                lemma_token_in_prefix_mono(raw@, t as int, t + 1, inv@[id]@);
            }
            assert(rawt@.take(0) =~= Seq::<String>::empty());
            assert(token_views(inv@) == fold_tx(base, rawt@.take(0)));
        }
        while x < rawt.len()
            invariant
                0 <= t < raw@.len(),
                0 <= x <= rawt@.len(),
                rawt == &raw[t as int],
                base == fold_inventory(raw@.take(t as int)),
                forall|i: int, j: int| 0 <= i < j < inv@.len() ==> (#[trigger] inv@[i])@ != (#[trigger] inv@[j])@,
                forall|u: int, x2: int| 0 <= u < t && 0 <= x2 < raw@[u]@.len()
                    ==> has_token(inv@, (#[trigger] raw@[u]@[x2])@),
                forall|x2: int| 0 <= x2 < x ==> has_token(inv@, (#[trigger] rawt@[x2])@),
                forall|id: int| 0 <= id < inv@.len() ==> token_in_prefix(raw@, t + 1, (#[trigger] inv@[id])@),
                token_views(inv@) == fold_tx(base, rawt@.take(x as int)),
            decreases rawt@.len() - x,
        {
            let tok = &rawt[x];
            let ghost old_inv = inv@;
            proof {
                assert(rawt@.take(x + 1).drop_last() =~= rawt@.take(x as int));
                assert(rawt@.take(x + 1).last() == rawt@[x as int]);
            }
            match find_token(&inv, tok) {
                None => {
                    proof {
                        if token_views(old_inv).contains(tok@) {
                            let id = choose|id: int| 0 <= id < token_views(old_inv).len()
                                && token_views(old_inv)[id] == tok@;
                            assert(old_inv[id]@ == tok@);
                        }
                        assert(!token_views(old_inv).contains(tok@));
                    }
                    inv.push(tok.clone());
                    proof {
                        assert(inv@[inv@.len() - 1]@ == tok@);
                        assert(inv@ =~= old_inv.push(inv@[inv@.len() - 1]));
                        assert forall|i: int, j: int| 0 <= i < j < inv@.len()
                            implies (#[trigger] inv@[i])@ != (#[trigger] inv@[j])@ by {
                            if j == inv@.len() - 1 {
                                assert(inv@[i] == old_inv[i]);
                            }
                        }
                        assert forall|u: int, x2: int| 0 <= u < t && 0 <= x2 < raw@[u]@.len()
                            implies has_token(inv@, (#[trigger] raw@[u]@[x2])@) by {
                            lemma_has_token_push(old_inv, inv@[inv@.len() - 1], raw@[u]@[x2]@);
                        }
                        assert forall|x2: int| 0 <= x2 < x implies has_token(inv@, (#[trigger] rawt@[x2])@) by {
                            lemma_has_token_push(old_inv, inv@[inv@.len() - 1], rawt@[x2]@);
                        }
                        assert forall|id: int| 0 <= id < inv@.len()
                            implies token_in_prefix(raw@, t + 1, (#[trigger] inv@[id])@) by {
                            if id == inv@.len() - 1 {
                                assert(0 <= t < t + 1 && (t as int) < raw@.len() && 0 <= x < raw@[t as int]@.len()
                                    && raw@[t as int]@[x as int]@ == inv@[id]@);
                            } else {
                                assert(inv@[id] == old_inv[id]);
                            }
                        }
                        assert(token_views(inv@) =~= token_views(old_inv).push(tok@));
                        assert(token_views(inv@) == fold_tx(base, rawt@.take(x + 1)));
                    }
                },
                Some(id) => {
                    proof {
                        assert(old_inv[id as int]@ == tok@);
                        assert(token_views(old_inv)[id as int] == tok@);
                        assert(token_views(old_inv).contains(tok@));
                        assert(token_views(inv@) == fold_tx(base, rawt@.take(x + 1)));
                    }
                },
            }
            proof {
                assert(has_token(inv@, rawt@[x as int]@));
            }
            x += 1;
        }
        proof {
            assert(rawt@.take(rawt@.len() as int) =~= rawt@);
            assert(raw@.take(t + 1).drop_last() =~= raw@.take(t as int));
            assert(raw@.take(t + 1).last() == raw@[t as int]);
            assert(token_views(inv@) == fold_inventory(raw@.take(t + 1)));
        }
        t += 1;
    }
    proof {
        assert(raw@.take(raw@.len() as int) =~= raw@);
    }
    inv
}
/// Rewrite one raw transaction as its sorted set of item ids.
fn intern_one(rawt: &RawTransaction, inv: &Inventory) -> (it: Transaction)
    requires
        forall|x: int| 0 <= x < rawt@.len() ==> has_token(inv@, (#[trigger] rawt@[x])@),
    ensures
        interned_tx_ok(rawt@, it@, inv@),
{
    let mut ids: Vec<ItemId> = Vec::new();
    let mut x: usize = 0;
    while x < rawt.len()
        invariant
            0 <= x <= rawt@.len(),
            ids@.len() == x,
            forall|x2: int| 0 <= x2 < rawt@.len() ==> has_token(inv@, (#[trigger] rawt@[x2])@),
            forall|x2: int| 0 <= x2 < x ==> (#[trigger] ids@[x2]) < inv@.len()
                && inv@[ids@[x2] as int]@ == rawt@[x2]@,
        decreases rawt@.len() - x,
    {
        let tok = &rawt[x];
        let id: usize = match find_token(inv, tok) {
            Some(id) => id,
            None => {
                proof {
                    let id0 = choose|id0: int| 0 <= id0 < inv@.len() && inv@[id0]@ == tok@;
                    assert(inv@[id0]@ != tok@);
                }
                vstd::pervasive::unreached()
            },
        };
        ids.push(id);
        x += 1;
    }
    let mut it: Vec<ItemId> = Vec::new();
    let mut i: usize = 0;
    while i < ids.len()
        invariant
            0 <= i <= ids@.len(),
            ids@.len() == rawt@.len(),
            forall|x2: int| 0 <= x2 < rawt@.len() ==> (#[trigger] ids@[x2]) < inv@.len()
                && inv@[ids@[x2] as int]@ == rawt@[x2]@,
            increasing(it@),
            forall|y: ItemId| it@.contains(y) <==> ids@.take(i as int).contains(y),
        decreases ids@.len() - i,
    {
        let ghost old_it = it@;
        insert_sorted(&mut it, ids[i]);
        proof {
            assert forall|y: ItemId| it@.contains(y) <==> ids@.take(i + 1).contains(y) by {
                assert(ids@.take(i + 1).drop_last() =~= ids@.take(i as int));
                assert(ids@.take(i + 1).last() == ids@[i as int]);
                if it@.contains(y) {
                    if old_it.contains(y) {
                        let m = choose|m: int| 0 <= m < i && ids@.take(i as int)[m] == y;
                        assert(ids@.take(i + 1)[m] == y);
                    } else {
                        assert(y == ids@[i as int]);
                        assert(ids@.take(i + 1)[i as int] == y);
                    }
                }
                if ids@.take(i + 1).contains(y) {
                    let m = choose|m: int| 0 <= m <= i && (#[trigger] ids@.take(i + 1)[m]) == y;
                    if m < i {
                        assert(ids@.take(i as int)[m] == y);
                        assert(old_it.contains(y));
                    } else {
                        assert(y == ids@[i as int]);
                    }
                }
            }
        }
        i += 1;
    }
    proof {
        assert(ids@.take(ids@.len() as int) =~= ids@);
        assert forall|x2: int| 0 <= x2 < rawt@.len()
            implies resolves(it@, inv@, (#[trigger] rawt@[x2])@) by {
            assert(ids@.contains(ids@[x2]));
            assert(it@.contains(ids@[x2]));
            let j = choose|j: int| 0 <= j < it@.len() && it@[j] == ids@[x2];
            assert(0 <= j < it@.len() && it@[j] < inv@.len() && inv@[it@[j] as int]@ == rawt@[x2]@);
        }
        assert forall|j: int| 0 <= j < it@.len() implies id_used(rawt@, inv@, #[trigger] it@[j]) by {
            assert(it@.contains(it@[j]));
            assert(ids@.contains(it@[j]));
            let x2 = choose|x2: int| 0 <= x2 < ids@.len() && ids@[x2] == it@[j];
            assert(0 <= x2 < rawt@.len() && rawt@[x2]@ == inv@[it@[j] as int]@);
        }
    }
    it
}


/// Interning is deterministic: any two inventories and interned transaction
/// lists that satisfy the interning contract for the same input agree — the
/// inventories token for token (by characters) and every transaction id
/// for id.
pub proof fn law_intern_determinism(raw: Seq<RawTransaction>, itxs1: Seq<Transaction>, inv1: Seq<String>, itxs2: Seq<Transaction>, inv2: Seq<String>)
    requires
        intern_ok(raw, itxs1, inv1),
        intern_ok(raw, itxs2, inv2),
    ensures
        token_views(inv1) == token_views(inv2),
        inv1.len() == inv2.len(),
        forall|t: int| 0 <= t < raw.len() ==> (#[trigger] itxs1[t])@ == itxs2[t]@,
{
    assert(token_views(inv1) == fold_inventory(raw));
    assert(token_views(inv2) == fold_inventory(raw));
    assert(inv1.len() == token_views(inv1).len());
    assert(inv2.len() == token_views(inv2).len());
    assert forall|id: int| 0 <= id < inv1.len() implies inv1[id]@ == inv2[id]@ by {
        assert(token_views(inv1)[id] == inv1[id]@);
        assert(token_views(inv2)[id] == inv2[id]@);
    }
    assert forall|t: int| 0 <= t < raw.len() implies (#[trigger] itxs1[t])@ == itxs2[t]@ by {
        let it1 = itxs1[t]@;
        let it2 = itxs2[t]@;
        assert(interned_tx_ok(raw[t]@, it1, inv1));
        assert(interned_tx_ok(raw[t]@, it2, inv2));
        assert forall|y: ItemId|
            #![trigger it1.contains(y)]
            #![trigger it2.contains(y)]
            it1.contains(y) <==> it2.contains(y) by {
            if it1.contains(y) {
                let j = choose|j: int| 0 <= j < it1.len() && it1[j] == y;
                assert(id_used(raw[t]@, inv1, it1[j]));
                let x = choose|x: int| 0 <= x < raw[t]@.len() && (#[trigger] raw[t]@[x])@ == inv1[y as int]@;
                assert(resolves(it2, inv2, (raw[t]@[x])@));
                let j2 = choose|j2: int| 0 <= j2 < it2.len() && (#[trigger] it2[j2]) < inv2.len()
                    && inv2[it2[j2] as int]@ == (raw[t]@[x])@;
                assert(inv2[it2[j2] as int]@ == inv2[y as int]@);
                assert(it2[j2] == y) by {
                    if it2[j2] < y {
                        assert(inv2[it2[j2] as int]@ != inv2[y as int]@);
                    }
                    if y < it2[j2] {
                        assert(inv2[y as int]@ != inv2[it2[j2] as int]@);
                    }
                }
                assert(it2.contains(y));
            }
            if it2.contains(y) {
                let j = choose|j: int| 0 <= j < it2.len() && it2[j] == y;
                assert(id_used(raw[t]@, inv2, it2[j]));
                let x = choose|x: int| 0 <= x < raw[t]@.len() && (#[trigger] raw[t]@[x])@ == inv2[y as int]@;
                assert(resolves(it1, inv1, (raw[t]@[x])@));
                let j2 = choose|j2: int| 0 <= j2 < it1.len() && (#[trigger] it1[j2]) < inv1.len()
                    && inv1[it1[j2] as int]@ == (raw[t]@[x])@;
                assert(inv1[it1[j2] as int]@ == inv1[y as int]@);
                assert(it1[j2] == y) by {
                    if it1[j2] < y {
                        assert(inv1[it1[j2] as int]@ != inv1[y as int]@);
                    }
                    if y < it1[j2] {
                        assert(inv1[y as int]@ != inv1[it1[j2] as int]@);
                    }
                }
                assert(it1.contains(y));
            }
        }
        crate::types::lemma_increasing_same_members(it1, it2);
    }
}

/// Mining from raw transactions is deterministic: any two results that
/// satisfy the mining contract for the same input, threshold and length
/// bound agree on the inventory tokens and hold exactly the same itemsets
/// with the same counts.
pub proof fn law_mining_determinism(raw: Seq<RawTransaction>, t1: FrequentItemsets, inv1: Seq<String>, t2: FrequentItemsets, inv2: Seq<String>, min_support: Fraction, max_length: nat)
    requires
        mining_result_ok(raw, t1, inv1, min_support, max_length),
        mining_result_ok(raw, t2, inv2, min_support, max_length),
    ensures
        token_views(inv1) == token_views(inv2),
        t1.levels@.len() == t2.levels@.len(),
        forall|c: Seq<ItemId>|
            #![trigger t1.table_contains(c)]
            #![trigger t2.table_contains(c)]
            t1.table_contains(c) <==> t2.table_contains(c),
        forall|c: Seq<ItemId>|
            #![trigger t1.table_count(c)]
            #![trigger t2.table_count(c)]
            t1.table_contains(c) ==> t1.table_count(c) == t2.table_count(c),
{
    let itxs1 = choose|itxs: Vec<Transaction>|
        #[trigger] intern_ok(raw, itxs@, inv1)
            && t1.table_exact(itxs.deep_view(), min_support, max_length)
            && itxs.deep_view().len() == raw.len();
    let itxs2 = choose|itxs: Vec<Transaction>|
        #[trigger] intern_ok(raw, itxs@, inv2)
            && t2.table_exact(itxs.deep_view(), min_support, max_length)
            && itxs.deep_view().len() == raw.len();
    law_intern_determinism(raw, itxs1@, inv1, itxs2@, inv2);
    lemma_txs_deep_view(itxs1);
    lemma_txs_deep_view(itxs2);
    assert(itxs1@.len() == raw.len() && itxs2@.len() == raw.len());
    assert(itxs1.deep_view() =~= itxs2.deep_view());
    crate::types::law_determinism(t1, t2, itxs1.deep_view(), min_support, max_length);
}

/// Intern the raw transactions: assign each distinct token a dense id and
/// rewrite every transaction as a sorted set of ids.
pub fn intern_transactions(raw: &Vec<RawTransaction>) -> (r: (Vec<Transaction>, Inventory))
    ensures
        intern_ok(raw@, r.0@, r.1@),
{
    let inv = build_inventory(raw);
    let mut itxs: Vec<Transaction> = Vec::new();
    let mut t: usize = 0;
    while t < raw.len()
        invariant
            0 <= t <= raw@.len(),
            itxs@.len() == t,
            forall|i: int, j: int| 0 <= i < j < inv@.len() ==> (#[trigger] inv@[i])@ != (#[trigger] inv@[j])@,
            forall|u: int, x: int| 0 <= u < raw@.len() && 0 <= x < raw@[u]@.len()
                ==> has_token(inv@, (#[trigger] raw@[u]@[x])@),
            forall|id: int| 0 <= id < inv@.len() ==> token_in_prefix(raw@, raw@.len() as int, (#[trigger] inv@[id])@),
            token_views(inv@) == fold_inventory(raw@),
            forall|u: int| 0 <= u < t ==> interned_tx_ok((#[trigger] raw@[u])@, itxs@[u]@, inv@),
        decreases raw@.len() - t,
    {
        let it = intern_one(&raw[t], &inv);
        itxs.push(it);
        proof {
            assert forall|u: int| 0 <= u < t + 1
                implies interned_tx_ok((#[trigger] raw@[u])@, itxs@[u]@, inv@) by {
                if u < t {
                    assert(itxs@[u]@ == itxs@.drop_last()[u]@);
                }
            }
        }
        t += 1;
    }
    (itxs, inv)
}

/// The table is the exact mining result for some interning of `raw` whose
/// inventory is `inv`.
pub open spec fn mining_result_ok(raw: Seq<RawTransaction>, table: FrequentItemsets, inv: Seq<String>, min_support: Fraction, max_length: nat) -> bool {
    exists|itxs: Vec<Transaction>|
        #[trigger] intern_ok(raw, itxs@, inv)
            && table.table_exact(itxs.deep_view(), min_support, max_length)
            && itxs.deep_view().len() == raw.len()
}

/// Intern the raw transactions, then mine frequent itemsets; returns the
/// exact table together with the inventory that resolves ids back to tokens.
pub fn generate_frequent_itemsets(raw_transactions: Vec<RawTransaction>, min_support: Fraction, max_length: usize) -> (r: Result<(FrequentItemsets, Inventory), AprioriError>)
    ensures
        r is Ok <==> max_length >= 1 && min_support.den >= 1,
        r matches Ok(pair) ==> mining_result_ok(raw_transactions@, pair.0, pair.1@, min_support, max_length as nat)
            && pair.0.table_shaped(),
{
    let (itxs, inventory) = intern_transactions(&raw_transactions);
    let ghost gitxs = itxs;
    match generate_frequent_itemsets_id(itxs, min_support, max_length) {
        Ok(table) => {
            let r = (table, inventory);
            proof {
                assert(gitxs.deep_view().len() == gitxs@.len());
                assert(intern_ok(raw_transactions@, gitxs@, r.1@));
                assert(r.0.table_exact(gitxs.deep_view(), min_support, max_length as nat));
                assert(gitxs.deep_view().len() == raw_transactions@.len());
                assert(r.0.table_shaped());
                assert(mining_result_ok(raw_transactions@, r.0, r.1@, min_support, max_length as nat));
            }
            Ok(r)
        },
        Err(e) => Err(e),
    }
}

} // verus!
